//! The cube of three by three by three. Each of the six faces is packed
//! into 32 bits: four bits for each of the eight stickers around its centre,
//! which hold the colour of the sticker. The centre of a face has the colour
//! of the same number as the face.
use vstd::prelude::*;
use vstd::string::*;
use rand::rngs::ThreadRng;
use rand::Rng;
use crate::action::Action;
use crate::state::{State, walk};
use crate::text::{padded_numeral, append_padded_numeral};

verus! {

/// `rand::rngs::ThreadRng`: the random number generator of a thread. Its
/// values are handed on to the calls that draw from it; nothing is known of
/// what is inside.
#[verifier::external_type_specification]
#[verifier::external_body]
pub struct ExThreadRng(rand::rngs::ThreadRng);

/// The colours of the stickers, in the order of their numbers.
#[derive(Debug, Copy, Clone, PartialEq, Eq, Hash)]
pub enum Color {
    White,
    Yellow,
    Red,
    Orange,
    Green,
    Blue,
}

/// The number of colours, and of faces.
pub const FACES: usize = 6;

/// The number of a sticker's colour on a face.
pub open spec fn sticker(face: u32, index: int) -> u32 {
    (face >> ((4 * index) as u32)) & 0x7
}

/// The face that differs from `face` in that the sticker of the given
/// index has the colour of the given number.
pub open spec fn with_sticker(face: u32, index: int, color: u32) -> u32 {
    (face & !(0x7u32 << ((4 * index) as u32))) | (color << ((4 * index) as u32))
}

/// The face turned by `bits` bits to the left, those that leave on the left
/// coming back in on the right.
pub open spec fn rolled(face: u32, bits: int) -> u32 {
    (face << (bits as u32)) | (face >> ((32 - bits) as u32))
}

/// Whether each sticker of the face has the number of a colour, and the
/// bits between the stickers are clear.
pub open spec fn valid_face(face: u32) -> bool {
    forall|index: int| 0 <= index < 8 ==> (#[trigger] (face >> ((4 * index) as u32))) & 0xf < 6
}

/// Whether each sticker of each face has the number of a colour.
pub open spec fn valid_faces(faces: Seq<u32>) -> bool {
    &&& faces.len() == FACES
    &&& forall|face: int| 0 <= face < FACES ==> valid_face(#[trigger] faces[face])
}

/// A sticker of a valid face has the number of a colour.
pub proof fn lemma_sticker(face: u32, index: int)
    requires
        valid_face(face),
        0 <= index < 8,
    ensures
        sticker(face, index) < 6,
{
    let shifted = face >> ((4 * index) as u32);
    assert(shifted & 0xf < 6);
    assert(shifted & 0x7 <= shifted & 0xf) by (bit_vector);
}

/// Giving a sticker of a valid face a colour leaves the face valid.
pub proof fn lemma_with_sticker(face: u32, index: int, color: u32)
    requires
        valid_face(face),
        0 <= index < 8,
        color < 6,
    ensures
        valid_face(with_sticker(face, index, color)),
{
    let after = with_sticker(face, index, color);
    assert forall|other: int| 0 <= other < 8 implies (#[trigger] (after >> ((4 * other) as u32)))
        & 0xf < 6 by {
        let i = (4 * index) as u32;
        let j = (4 * other) as u32;
        assert((face >> i) & 0xf < 6);
        assert((face >> j) & 0xf < 6);
        assert((((face & !(0x7u32 << i)) | (color << i)) >> j) & 0xf < 6) by (bit_vector)
            requires
                i < 32,
                j < 32,
                i % 4 == 0,
                j % 4 == 0,
                color < 6,
                (face >> i) & 0xf < 6,
                (face >> j) & 0xf < 6,
        ;
    }
}

/// Turning a valid face by a whole number of stickers leaves it valid.
pub proof fn lemma_rolled(face: u32, by: int)
    requires
        valid_face(face),
        1 <= by <= 3,
    ensures
        valid_face(rolled(face, 8 * by)),
{
    let after = rolled(face, 8 * by);
    let bits = (8 * by) as u32;
    let rest = (32 - 8 * by) as u32;
    assert forall|index: int| 0 <= index < 8 implies (#[trigger] (after >> ((4 * index)
        as u32))) & 0xf < 6 by {
        let j = (4 * index) as u32;
        let from = (4 * ((index + 8 - 2 * by) % 8)) as u32;
        assert((face >> from) & 0xf < 6);
        assert((((face << bits) | (face >> rest)) >> j) & 0xf == (face >> from) & 0xf)
            by (bit_vector)
            requires
                (bits == 8 && rest == 24) || (bits == 16 && rest == 16) || (bits == 24 && rest
                    == 8),
                j < 32,
                j % 4 == 0,
                from < 32,
                from + bits == j || from + bits == j + 32,
        ;
    }
}

impl Color {
    /// The number of the colour.
    pub open spec fn index(self) -> u32 {
        match self {
            Color::White => 0,
            Color::Yellow => 1,
            Color::Red => 2,
            Color::Orange => 3,
            Color::Green => 4,
            Color::Blue => 5,
        }
    }

    /// The colour of a number.
    pub open spec fn of(index: u32) -> Color {
        if index == 0 {
            Color::White
        } else if index == 1 {
            Color::Yellow
        } else if index == 2 {
            Color::Red
        } else if index == 3 {
            Color::Orange
        } else if index == 4 {
            Color::Green
        } else {
            Color::Blue
        }
    }

    /// The face whose first `count` stickers have the given colours and
    /// whose other stickers are white.
    pub open spec fn face_of(colors: Seq<Color>, count: int) -> u32
        decreases count,
    {
        if count <= 0 {
            0
        } else {
            Color::face_of(colors, count - 1) | (colors[count - 1].index() << ((4 * (count - 1))
                as u32))
        }
    }

    pub fn to_index(&self) -> (index: u32)
        ensures
            index == self.index(),
            index < 6,
    {
        match self {
            Color::White => 0,
            Color::Yellow => 1,
            Color::Red => 2,
            Color::Orange => 3,
            Color::Green => 4,
            Color::Blue => 5,
        }
    }

    /// The face whose stickers have the given colours.
    pub fn to_face(colors: [Color; 8]) -> (face: u32)
        ensures
            face == Color::face_of(colors@, 8),
    {
        let mut face = 0_u32;
        let mut i: usize = 0;
        while i < 8
            invariant
                i <= 8,
                face == Color::face_of(colors@, i as int),
            decreases 8 - i,
        {
            face = face | (colors[i].to_index() << ((i * 4) as u32));
            i += 1;
        }
        face
    }

    /// The colour of the sticker of the given index.
    pub fn get_color_at(face: u32, index: usize) -> (color: Color)
        requires
            index < 8,
            sticker(face, index as int) < 6,
        ensures
            color.index() == sticker(face, index as int),
            color == Color::of(sticker(face, index as int)),
    {
        let color = (face >> ((index * 4) as u32)) & 0b0111;
        if color == 0 {
            Color::White
        } else if color == 1 {
            Color::Yellow
        } else if color == 2 {
            Color::Red
        } else if color == 3 {
            Color::Orange
        } else if color == 4 {
            Color::Green
        } else {
            Color::Blue
        }
    }

    /// The face with the sticker of the given index in the given colour.
    pub fn set_color_at(face: u32, index: usize, color: Color) -> (new_face: u32)
        requires
            index < 8,
        ensures
            new_face == with_sticker(face, index as int, color.index()),
    {
        let shift = (index * 4) as u32;
        let mut new_face = face;
        assert((0xffffffffu32 - (0b0111u32 << shift)) as u32 == !(0x7u32 << shift))
            by (bit_vector)
            requires
                shift < 32,
        ;
        new_face = new_face & (0xffffffff - (0b0111 << shift));
        new_face = new_face | (color.to_index() << shift);
        new_face
    }

    /// The colour of a number: of its last three bits.
    pub fn from_index(index: u8) -> (color: Color)
        requires
            index & 0b0111 < 6,
        ensures
            color.index() == index & 0b0111,
    {
        let low = index & 0b0111;
        if low == 0 {
            Color::White
        } else if low == 1 {
            Color::Yellow
        } else if low == 2 {
            Color::Red
        } else if low == 3 {
            Color::Orange
        } else if low == 4 {
            Color::Green
        } else {
            Color::Blue
        }
    }
}

/// The faces whose stickers go round when the given face turns, in the
/// order in which a quarter turn clockwise takes them.
pub open spec fn ring_faces(face: int) -> Seq<int> {
    if face == 0 {
        seq![3, 5, 2, 4]
    } else if face == 1 {
        seq![2, 5, 3, 4]
    } else if face == 2 {
        seq![0, 5, 1, 4]
    } else if face == 3 {
        seq![0, 4, 1, 5]
    } else if face == 4 {
        seq![0, 2, 1, 3]
    } else {
        seq![0, 3, 1, 2]
    }
}

/// On each face of the ring, the index of the first of the three stickers
/// that go round when the given face turns.
pub open spec fn ring_starts(face: int) -> Seq<int> {
    if face == 0 {
        seq![0, 0, 0, 0]
    } else if face == 1 {
        seq![4, 4, 4, 4]
    } else if face == 2 {
        seq![4, 6, 0, 2]
    } else if face == 3 {
        seq![0, 6, 0, 2]
    } else if face == 4 {
        seq![6, 6, 6, 2]
    } else {
        seq![2, 6, 2, 2]
    }
}

/// The faces after the first `count` of the twelve stickers around `face`
/// have gone `by` sides on: each takes, in its new place, the colour that
/// it had on the cube `before`.
pub open spec fn turned_ring(
    before: Seq<u32>,
    faces: Seq<u32>,
    face: int,
    by: int,
    count: int,
) -> Seq<u32>
    decreases count,
{
    if count <= 0 {
        faces
    } else {
        let done = turned_ring(before, faces, face, by, count - 1);
        let side = (count - 1) / 3;
        let step = (count - 1) % 3;
        let from_face = ring_faces(face)[side];
        let from_index = (ring_starts(face)[side] + step) % 8;
        let to_face = ring_faces(face)[(side + by) % 4];
        let to_index = (ring_starts(face)[(side + by) % 4] + step) % 8;
        done.update(
            to_face,
            with_sticker(done[to_face], to_index, sticker(before[from_face], from_index)),
        )
    }
}

/// The faces after `face` has turned by `by` quarters clockwise: its own
/// stickers go two places on for each quarter, and the twelve stickers
/// around it go one side on.
pub open spec fn turned(faces: Seq<u32>, face: int, by: int) -> Seq<u32> {
    turned_ring(faces, faces.update(face, rolled(faces[face], 8 * by)), face, by, 12)
}

/// While the stickers around a face go round, the faces stay valid.
pub proof fn lemma_turned_ring(
    before: Seq<u32>,
    faces: Seq<u32>,
    face: int,
    by: int,
    count: int,
)
    requires
        valid_faces(before),
        valid_faces(faces),
        0 <= face < FACES,
        1 <= by <= 3,
        0 <= count <= 12,
    ensures
        valid_faces(turned_ring(before, faces, face, by, count)),
    decreases count,
{
    if count > 0 {
        lemma_turned_ring(before, faces, face, by, count - 1);
        let done = turned_ring(before, faces, face, by, count - 1);
        let side = (count - 1) / 3;
        let step = (count - 1) % 3;
        let from_face = ring_faces(face)[side];
        let from_index = (ring_starts(face)[side] + step) % 8;
        let to_face = ring_faces(face)[(side + by) % 4];
        let to_index = (ring_starts(face)[(side + by) % 4] + step) % 8;
        assert(0 <= from_face < FACES && 0 <= to_face < FACES);
        lemma_sticker(before[from_face], from_index);
        lemma_with_sticker(done[to_face], to_index, sticker(before[from_face], from_index));
    }
}

/// A turn of a face leaves a valid cube valid.
pub proof fn lemma_turned(faces: Seq<u32>, face: int, by: int)
    requires
        valid_faces(faces),
        0 <= face < FACES,
        1 <= by <= 3,
    ensures
        valid_faces(turned(faces, face, by)),
{
    lemma_rolled(faces[face], by);
    lemma_turned_ring(faces, faces.update(face, rolled(faces[face], 8 * by)), face, by, 12);
}

/// Where the sticker of the given place among the twelve around `face`
/// comes from: its face and its index.
pub open spec fn ring_source(face: int, place: int) -> (int, int) {
    let side = place / 3;
    (ring_faces(face)[side], (ring_starts(face)[side] + place % 3) % 8)
}

/// Where the sticker of the given place among the twelve around `face`
/// goes when the face turns by `by` quarters: its face and its index.
pub open spec fn ring_target(face: int, by: int, place: int) -> (int, int) {
    let side = (place / 3 + by) % 4;
    (ring_faces(face)[side], (ring_starts(face)[side] + place % 3) % 8)
}

/// Whether the sticker of the given index on the face `on` is one of the
/// twelve around `face`.
pub open spec fn on_ring(face: int, on: int, index: int) -> bool {
    exists|place: int| 0 <= place < 12 && #[trigger] ring_source(face, place) == (on, index)
}

/// Giving a sticker a colour changes that sticker and no other.
pub proof fn lemma_with_sticker_at(face: u32, index: int, color: u32, other: int)
    requires
        0 <= index < 8,
        0 <= other < 8,
        color < 8,
    ensures
        sticker(with_sticker(face, index, color), other) == if other == index {
            color
        } else {
            sticker(face, other)
        },
{
    let i = (4 * index) as u32;
    let j = (4 * other) as u32;
    assert((((face & !(0x7u32 << i)) | (color << i)) >> j) & 0x7 == if j == i {
        color
    } else {
        (face >> j) & 0x7
    }) by (bit_vector)
        requires
            i < 32,
            j < 32,
            i % 4 == 0,
            j % 4 == 0,
            color < 8,
    ;
}

/// Turning a face by a number of quarters takes each of its stickers two
/// places on for each quarter.
pub proof fn lemma_rolled_at(face: u32, by: int, index: int)
    requires
        1 <= by <= 3,
        0 <= index < 8,
    ensures
        sticker(rolled(face, 8 * by), index) == sticker(face, (index + 8 - 2 * by) % 8),
{
    let bits = (8 * by) as u32;
    let rest = (32 - 8 * by) as u32;
    let j = (4 * index) as u32;
    let from = (4 * ((index + 8 - 2 * by) % 8)) as u32;
    assert((((face << bits) | (face >> rest)) >> j) & 0x7 == (face >> from) & 0x7) by (bit_vector)
        requires
            (bits == 8 && rest == 24) || (bits == 16 && rest == 16) || (bits == 24 && rest == 8),
            j < 32,
            j % 4 == 0,
            from < 32,
            from + bits == j || from + bits == j + 32,
    ;
}

/// The twelve stickers around a face are twelve different stickers, none
/// of them on the face itself.
pub proof fn lemma_ring_places(face: int, by: int, first: int, second: int)
    requires
        0 <= face < FACES,
        1 <= by <= 3,
        0 <= first < 12,
        0 <= second < 12,
    ensures
        0 <= ring_target(face, by, first).0 < FACES,
        0 <= ring_target(face, by, first).1 < 8,
        0 <= ring_source(face, first).0 < FACES,
        0 <= ring_source(face, first).1 < 8,
        ring_target(face, by, first).0 != face,
        ring_target(face, by, first) == ring_source(face, ((first / 3 + by) % 4) * 3 + first % 3),
        first != second ==> ring_target(face, by, first) != ring_target(face, by, second),
        first != second ==> ring_source(face, first) != ring_source(face, second),
{
}

/// After the first `count` of the twelve stickers around `face` have gone
/// on, each of them has, in its new place, the colour that it had before,
/// and every other sticker is as it was when they set out.
pub proof fn lemma_turned_ring_stickers(
    before: Seq<u32>,
    faces: Seq<u32>,
    face: int,
    by: int,
    count: int,
)
    requires
        before.len() == FACES,
        faces.len() == FACES,
        0 <= face < FACES,
        1 <= by <= 3,
        0 <= count <= 12,
    ensures
        turned_ring(before, faces, face, by, count).len() == FACES,
        forall|place: int|
            0 <= place < count ==> sticker(
                turned_ring(before, faces, face, by, count)[(#[trigger] ring_target(
                    face,
                    by,
                    place,
                )).0],
                ring_target(face, by, place).1,
            ) == sticker(before[ring_source(face, place).0], ring_source(face, place).1),
        forall|on: int, index: int|
            0 <= on < FACES && 0 <= index < 8 && (forall|place: int|
                0 <= place < count ==> #[trigger] ring_target(face, by, place) != (on, index))
                ==> #[trigger] sticker(turned_ring(before, faces, face, by, count)[on], index)
                == sticker(faces[on], index),
    decreases count,
{
    if count > 0 {
        lemma_turned_ring_stickers(before, faces, face, by, count - 1);
        let done = turned_ring(before, faces, face, by, count - 1);
        let after = turned_ring(before, faces, face, by, count);
        let last = count - 1;
        let (to_face, to_index) = ring_target(face, by, last);
        let (from_face, from_index) = ring_source(face, last);
        let color = sticker(before[from_face], from_index);
        lemma_ring_places(face, by, last, last);
        assert(color < 8) by {
            let shifted = before[from_face] >> ((4 * from_index) as u32);
            assert(shifted & 0x7 < 8) by (bit_vector);
        }
        assert(after == done.update(to_face, with_sticker(done[to_face], to_index, color)));
        assert forall|place: int| 0 <= place < count implies sticker(
            after[(#[trigger] ring_target(face, by, place)).0],
            ring_target(face, by, place).1,
        ) == sticker(before[ring_source(face, place).0], ring_source(face, place).1) by {
            lemma_ring_places(face, by, place, last);
            let (f, m) = ring_target(face, by, place);
            lemma_with_sticker_at(done[to_face], to_index, color, m);
        }
        assert forall|on: int, index: int|
            0 <= on < FACES && 0 <= index < 8 && (forall|place: int|
                0 <= place < count ==> #[trigger] ring_target(face, by, place) != (
                    on,
                    index,
                )) implies #[trigger] sticker(after[on], index) == sticker(faces[on], index) by {
            assert(ring_target(face, by, last) != (on, index));
            lemma_with_sticker_at(done[to_face], to_index, color, index);
            assert forall|place: int| 0 <= place < count - 1 implies #[trigger] ring_target(
                face,
                by,
                place,
            ) != (on, index) by {}
        }
    }
}

/// What a turn does: the stickers of the face that turns go two places on
/// for each quarter, the twelve stickers around it go on by as many sides
/// as there are quarters, and every other sticker stays.
pub proof fn lemma_turned_stickers(faces: Seq<u32>, face: int, by: int)
    requires
        faces.len() == FACES,
        0 <= face < FACES,
        1 <= by <= 3,
    ensures
        turned(faces, face, by).len() == FACES,
        forall|index: int|
            0 <= index < 8 ==> #[trigger] sticker(turned(faces, face, by)[face], index) == sticker(
                faces[face],
                (index + 8 - 2 * by) % 8,
            ),
        forall|place: int|
            0 <= place < 12 ==> sticker(
                turned(faces, face, by)[(#[trigger] ring_target(face, by, place)).0],
                ring_target(face, by, place).1,
            ) == sticker(faces[ring_source(face, place).0], ring_source(face, place).1),
        forall|on: int, index: int|
            0 <= on < FACES && 0 <= index < 8 && on != face && !on_ring(face, on, index)
                ==> #[trigger] sticker(turned(faces, face, by)[on], index) == sticker(
                faces[on],
                index,
            ),
{
    let begun = faces.update(face, rolled(faces[face], 8 * by));
    lemma_turned_ring_stickers(faces, begun, face, by, 12);
    let after = turned(faces, face, by);
    assert forall|index: int| 0 <= index < 8 implies #[trigger] sticker(after[face], index)
        == sticker(faces[face], (index + 8 - 2 * by) % 8) by {
        assert forall|place: int| 0 <= place < 12 implies #[trigger] ring_target(face, by, place)
            != (face, index) by {
            lemma_ring_places(face, by, place, place);
        }
        lemma_rolled_at(faces[face], by, index);
    }
    assert forall|on: int, index: int|
        0 <= on < FACES && 0 <= index < 8 && on != face && !on_ring(
            face,
            on,
            index,
        ) implies #[trigger] sticker(after[on], index) == sticker(faces[on], index) by {
        assert forall|place: int| 0 <= place < 12 implies #[trigger] ring_target(face, by, place)
            != (on, index) by {
            lemma_ring_places(face, by, place, place);
            let same = ((place / 3 + by) % 4) * 3 + place % 3;
            assert(ring_source(face, same) == ring_target(face, by, place));
        }
    }
}

/// The faces of the cube on which every sticker has the colour of its
/// face.
pub open spec fn solved_faces() -> Seq<u32> {
    seq![0x00000000u32, 0x11111111u32, 0x22222222u32, 0x33333333u32, 0x44444444u32, 0x55555555u32]
}

/// The face of which every sticker has the colour of the given number.
pub open spec fn plain_face(color: u32) -> u32 {
    (color * 0x11111111) as u32
}

/// A face of eight stickers of one colour.
pub proof fn lemma_plain_face(colors: Seq<Color>, color: Color)
    requires
        colors.len() == 8,
        forall|i: int| 0 <= i < 8 ==> colors[i] == color,
    ensures
        Color::face_of(colors, 8) == plain_face(color.index()),
        valid_face(plain_face(color.index())),
{
    reveal_with_fuel(Color::face_of, 9);
    let c = color.index();
    assert((((((((0u32 | (c << 0u32)) | (c << 4u32)) | (c << 8u32)) | (c << 12u32)) | (c << 16u32))
        | (c << 20u32)) | (c << 24u32)) | (c << 28u32) == (c * 0x11111111) as u32) by (bit_vector)
        requires
            c < 6,
    ;
    let face = plain_face(c);
    assert forall|index: int| 0 <= index < 8 implies (#[trigger] (face >> ((4 * index) as u32)))
        & 0xf < 6 by {
        let j = (4 * index) as u32;
        assert((((c * 0x11111111) as u32) >> j) & 0xf < 6) by (bit_vector)
            requires
                c < 6,
                j < 32,
                j % 4 == 0,
        ;
    }
}

/// The solved cube is valid.
pub proof fn lemma_solved_faces()
    ensures
        valid_faces(solved_faces()),
{
    lemma_plain_face(Seq::new(8, |k: int| Color::White), Color::White);
    lemma_plain_face(Seq::new(8, |k: int| Color::Yellow), Color::Yellow);
    lemma_plain_face(Seq::new(8, |k: int| Color::Red), Color::Red);
    lemma_plain_face(Seq::new(8, |k: int| Color::Orange), Color::Orange);
    lemma_plain_face(Seq::new(8, |k: int| Color::Green), Color::Green);
    lemma_plain_face(Seq::new(8, |k: int| Color::Blue), Color::Blue);
}

/// The faces that go round with the given face.
fn ring_faces_of(face: usize) -> (ring: [usize; 4])
    requires
        face < FACES,
    ensures
        forall|i: int| 0 <= i < 4 ==> ring@[i] == ring_faces(face as int)[i],
        forall|i: int| 0 <= i < 4 ==> ring@[i] < FACES,
{
    if face == 0 {
        [3, 5, 2, 4]
    } else if face == 1 {
        [2, 5, 3, 4]
    } else if face == 2 {
        [0, 5, 1, 4]
    } else if face == 3 {
        [0, 4, 1, 5]
    } else if face == 4 {
        [0, 2, 1, 3]
    } else {
        [0, 3, 1, 2]
    }
}

/// Where the stickers that go round with the given face begin.
fn ring_starts_of(face: usize) -> (starts: [usize; 4])
    requires
        face < FACES,
    ensures
        forall|i: int| 0 <= i < 4 ==> starts@[i] == ring_starts(face as int)[i],
        forall|i: int| 0 <= i < 4 ==> starts@[i] < 8,
{
    if face == 0 {
        [0, 0, 0, 0]
    } else if face == 1 {
        [4, 4, 4, 4]
    } else if face == 2 {
        [4, 6, 0, 2]
    } else if face == 3 {
        [0, 6, 0, 2]
    } else if face == 4 {
        [6, 6, 6, 2]
    } else {
        [2, 6, 2, 2]
    }
}

/// A cube, face by face.
#[derive(Clone, Copy, PartialEq, Eq, Debug)]
pub struct CubeState {
    pub faces: [u32; 6],
}

impl CubeState {
    /// The solved cube.
    pub fn new() -> (cube: Self)
        ensures
            cube.faces@ == solved_faces(),
            valid_faces(cube.faces@),
    {
        let mut faces = [0_u32;6];
        let mut i: usize = 0;
        while i < 6
            invariant
                i <= 6,
                forall|f: int| 0 <= f < i ==> faces@[f] == solved_faces()[f],
            decreases 6 - i,
        {
            let index = i as u8;
            assert(index & 0b0111 == index) by (bit_vector)
                requires
                    index < 6,
            ;
            let color = Color::from_index(index);
            let colors = [color;8];
            proof {
                lemma_plain_face(colors@, color);
                assert(plain_face(color.index()) == solved_faces()[i as int]);
            }
            faces[i] = Color::to_face(colors);
            i += 1;
        }
        assert(faces@ =~= solved_faces());
        proof {
            lemma_solved_faces();
        }
        Self { faces }
    }

    /// The solved cube.
    pub fn default() -> (cube: Self)
        ensures
            cube.faces@ == solved_faces(),
            valid_faces(cube.faces@),
    {
        Self { faces: Self::default_cube() }
    }

    /// The faces of the solved cube.
    pub fn default_cube() -> (faces: [u32; 6])
        ensures
            faces@ == solved_faces(),
            valid_faces(faces@),
    {
        proof {
            lemma_solved_faces();
        }
        let white = [Color::White;8];
        let yellow = [Color::Yellow;8];
        let red = [Color::Red;8];
        let orange = [Color::Orange;8];
        let green = [Color::Green;8];
        let blue = [Color::Blue;8];
        proof {
            lemma_plain_face(white@, Color::White);
            lemma_plain_face(yellow@, Color::Yellow);
            lemma_plain_face(red@, Color::Red);
            lemma_plain_face(orange@, Color::Orange);
            lemma_plain_face(green@, Color::Green);
            lemma_plain_face(blue@, Color::Blue);
        }
        let faces = [
            Color::to_face(white),
            Color::to_face(yellow),
            Color::to_face(red),
            Color::to_face(orange),
            Color::to_face(green),
            Color::to_face(blue),
        ];
        assert(faces@ =~= solved_faces());
        faces
    }

    /// The faces after the given face has turned by `by` quarters
    /// clockwise.
    fn turn(faces: [u32; 6], face: u8, by: u8) -> (new_faces: [u32; 6])
        requires
            valid_faces(faces@),
            face < FACES,
            1 <= by <= 3,
        ensures
            new_faces@ == turned(faces@, face as int, by as int),
            valid_faces(new_faces@),
    {
        let mut new_faces = faces;
        let face_index = face as usize;
        let bits = 8 * (by as u32);
        new_faces[face_index] = (faces[face_index] << bits) | (faces[face_index] >> (32 - bits));
        let ghost begun = new_faces@;
        proof {
            lemma_rolled(faces@[face as int], by as int);
            assert(begun == faces@.update(face as int, rolled(faces@[face as int], 8 * by)));
        }
        let ring = ring_faces_of(face_index);
        let starts = ring_starts_of(face_index);
        let mut i: usize = 0;
        while i < 4
            invariant
                i <= 4,
                face < FACES,
                1 <= by <= 3,
                valid_faces(faces@),
                valid_faces(begun),
                forall|t: int| 0 <= t < 4 ==> ring@[t] == ring_faces(face as int)[t],
                forall|t: int| 0 <= t < 4 ==> ring@[t] < FACES,
                forall|t: int| 0 <= t < 4 ==> starts@[t] == ring_starts(face as int)[t],
                forall|t: int| 0 <= t < 4 ==> starts@[t] < 8,
                new_faces@ == turned_ring(faces@, begun, face as int, by as int, 3 * i),
            decreases 4 - i,
        {
            let from_face = ring[i];
            let from_start = starts[i];
            let to = (i + by as usize) % 4;
            let to_face = ring[to];
            let to_start = starts[to];
            let mut j: usize = 0;
            while j < 3
                invariant
                    i < 4,
                    j <= 3,
                    face < FACES,
                    1 <= by <= 3,
                    valid_faces(faces@),
                    valid_faces(begun),
                    to == (i + by) % 4,
                    from_face == ring_faces(face as int)[i as int],
                    from_start == ring_starts(face as int)[i as int],
                    to_face == ring_faces(face as int)[to as int],
                    to_start == ring_starts(face as int)[to as int],
                    from_face < FACES,
                    to_face < FACES,
                    from_start < 8,
                    to_start < 8,
                    new_faces@ == turned_ring(faces@, begun, face as int, by as int, 3 * i + j),
                decreases 3 - j,
            {
                proof {
                    lemma_sticker(faces@[from_face as int], ((from_start + j) % 8) as int);
                    lemma_turned_ring(faces@, begun, face as int, by as int, 3 * i + j);
                }
                let from_color = Color::get_color_at(faces[from_face], (from_start + j) % 8);
                let changed = Color::set_color_at(
                    new_faces[to_face],
                    (to_start + j) % 8,
                    from_color,
                );
                new_faces[to_face] = changed;
                j += 1;
            }
            i += 1;
        }
        proof {
            lemma_turned(faces@, face as int, by as int);
        }
        new_faces
    }

    /// The faces after the given face has turned a quarter clockwise.
    pub fn rotate_cw(faces: [u32; 6], face: u8) -> (new_faces: [u32; 6])
        requires
            valid_faces(faces@),
            face < FACES,
        ensures
            new_faces@ == turned(faces@, face as int, 1),
            valid_faces(new_faces@),
    {
        Self::turn(faces, face, 1)
    }

    /// The faces after the given face has turned a quarter anticlockwise.
    pub fn rotate_ccw(faces: [u32; 6], face: u8) -> (new_faces: [u32; 6])
        requires
            valid_faces(faces@),
            face < FACES,
        ensures
            new_faces@ == turned(faces@, face as int, 3),
            valid_faces(new_faces@),
    {
        Self::turn(faces, face, 3)
    }

    /// The faces after the given face has turned by a half.
    pub fn rotate_180(faces: [u32; 6], face: u8) -> (new_faces: [u32; 6])
        requires
            valid_faces(faces@),
            face < FACES,
        ensures
            new_faces@ == turned(faces@, face as int, 2),
            valid_faces(new_faces@),
    {
        Self::turn(faces, face, 2)
    }
}

/// A turn of a face: a quarter clockwise, a quarter anticlockwise (the
/// names that end in `Prime`) or a half (the names that end in `2`).
#[derive(Debug, Clone, Copy, PartialEq, Eq)]
pub enum CubeAction {
    U,
    UPrime,
    U2,
    D,
    DPrime,
    D2,
    R,
    RPrime,
    R2,
    L,
    LPrime,
    L2,
    F,
    FPrime,
    F2,
    B,
    BPrime,
    B2,
}

/// The letter of a face.
pub open spec fn side_char(face: int) -> char {
    if face == 0 {
        'U'
    } else if face == 1 {
        'D'
    } else if face == 2 {
        'F'
    } else if face == 3 {
        'B'
    } else if face == 4 {
        'R'
    } else {
        'L'
    }
}

/// The face of a letter.
pub open spec fn side_of(letter: char) -> Option<int> {
    if letter == 'U' {
        Some(0)
    } else if letter == 'D' {
        Some(1)
    } else if letter == 'F' {
        Some(2)
    } else if letter == 'B' {
        Some(3)
    } else if letter == 'R' {
        Some(4)
    } else if letter == 'L' {
        Some(5)
    } else {
        None
    }
}

/// The turns, in the order in which they are tried.
pub open spec fn all_turns() -> Seq<CubeAction> {
    seq![
        CubeAction::U,
        CubeAction::UPrime,
        CubeAction::U2,
        CubeAction::D,
        CubeAction::DPrime,
        CubeAction::D2,
        CubeAction::R,
        CubeAction::RPrime,
        CubeAction::R2,
        CubeAction::L,
        CubeAction::LPrime,
        CubeAction::L2,
        CubeAction::F,
        CubeAction::FPrime,
        CubeAction::F2,
        CubeAction::B,
        CubeAction::BPrime,
        CubeAction::B2,
    ]
}

/// The turns, in the order in which a draw picks them.
pub open spec fn drawn_turns() -> Seq<CubeAction> {
    seq![
        CubeAction::U,
        CubeAction::UPrime,
        CubeAction::D,
        CubeAction::DPrime,
        CubeAction::R,
        CubeAction::RPrime,
        CubeAction::L,
        CubeAction::LPrime,
        CubeAction::F,
        CubeAction::FPrime,
        CubeAction::B,
        CubeAction::BPrime,
        CubeAction::U2,
        CubeAction::D2,
        CubeAction::R2,
        CubeAction::L2,
        CubeAction::F2,
        CubeAction::B2,
    ]
}

/// `rand::thread_rng`: the random number generator of the thread that
/// calls. Nothing is claimed of it.
#[verifier::external_body]
fn thread_rng() -> ThreadRng {
    rand::thread_rng()
}

/// `rand::Rng::gen_range` on the range from 0 up to, not including,
/// `bound`: a random number of that range. The range must not be empty. The
/// contract claims that the number lies in the range, and nothing of which
/// it is.
#[verifier::external_body]
fn draw_below(rng: &mut ThreadRng, bound: i32) -> (drawn: i32)
    requires
        bound > 0,
    ensures
        0 <= drawn < bound,
{
    rng.gen_range(0..bound)
}

impl CubeAction {
    /// The face that turns.
    pub open spec fn face(self) -> int {
        match self {
            CubeAction::U | CubeAction::UPrime | CubeAction::U2 => 0,
            CubeAction::D | CubeAction::DPrime | CubeAction::D2 => 1,
            CubeAction::F | CubeAction::FPrime | CubeAction::F2 => 2,
            CubeAction::B | CubeAction::BPrime | CubeAction::B2 => 3,
            CubeAction::R | CubeAction::RPrime | CubeAction::R2 => 4,
            CubeAction::L | CubeAction::LPrime | CubeAction::L2 => 5,
        }
    }

    /// By how many quarters clockwise it turns.
    pub open spec fn quarters(self) -> int {
        match self {
            CubeAction::U | CubeAction::D | CubeAction::F | CubeAction::B | CubeAction::R
            | CubeAction::L => 1,
            CubeAction::U2 | CubeAction::D2 | CubeAction::F2 | CubeAction::B2 | CubeAction::R2
            | CubeAction::L2 => 2,
            _ => 3,
        }
    }

    /// The turn of the given face by the given number of quarters.
    pub open spec fn of(face: int, quarters: int) -> CubeAction {
        all_turns()[Self::order(face) * 3 + if quarters == 1 {
            0int
        } else if quarters == 3 {
            1int
        } else {
            2int
        }]
    }

    /// Where the turns of a face stand among all turns.
    pub open spec fn order(face: int) -> int {
        if face == 0 {
            0
        } else if face == 1 {
            1
        } else if face == 4 {
            2
        } else if face == 5 {
            3
        } else if face == 2 {
            4
        } else {
            5
        }
    }

    /// The face that turns and the number of quarters.
    pub fn parts(&self) -> (parts: (u8, u8))
        ensures
            parts.0 == self.face(),
            parts.1 == self.quarters(),
            parts.0 < FACES,
            1 <= parts.1 <= 3,
    {
        match self {
            CubeAction::U => (0, 1),
            CubeAction::UPrime => (0, 3),
            CubeAction::U2 => (0, 2),
            CubeAction::D => (1, 1),
            CubeAction::DPrime => (1, 3),
            CubeAction::D2 => (1, 2),
            CubeAction::R => (4, 1),
            CubeAction::RPrime => (4, 3),
            CubeAction::R2 => (4, 2),
            CubeAction::L => (5, 1),
            CubeAction::LPrime => (5, 3),
            CubeAction::L2 => (5, 2),
            CubeAction::F => (2, 1),
            CubeAction::FPrime => (2, 3),
            CubeAction::F2 => (2, 2),
            CubeAction::B => (3, 1),
            CubeAction::BPrime => (3, 3),
            CubeAction::B2 => (3, 2),
        }
    }

    /// The turn of the given face by the given number of quarters.
    pub fn from_parts(face: u8, quarters: u8) -> (action: CubeAction)
        requires
            face < FACES,
            1 <= quarters <= 3,
        ensures
            action == CubeAction::of(face as int, quarters as int),
            action.face() == face,
            action.quarters() == quarters,
    {
        if face == 0 {
            if quarters == 1 {
                CubeAction::U
            } else if quarters == 3 {
                CubeAction::UPrime
            } else {
                CubeAction::U2
            }
        } else if face == 1 {
            if quarters == 1 {
                CubeAction::D
            } else if quarters == 3 {
                CubeAction::DPrime
            } else {
                CubeAction::D2
            }
        } else if face == 2 {
            if quarters == 1 {
                CubeAction::F
            } else if quarters == 3 {
                CubeAction::FPrime
            } else {
                CubeAction::F2
            }
        } else if face == 3 {
            if quarters == 1 {
                CubeAction::B
            } else if quarters == 3 {
                CubeAction::BPrime
            } else {
                CubeAction::B2
            }
        } else if face == 4 {
            if quarters == 1 {
                CubeAction::R
            } else if quarters == 3 {
                CubeAction::RPrime
            } else {
                CubeAction::R2
            }
        } else {
            if quarters == 1 {
                CubeAction::L
            } else if quarters == 3 {
                CubeAction::LPrime
            } else {
                CubeAction::L2
            }
        }
    }

    /// The turn that a draw picks.
    pub fn from_draw(drawn: i32) -> (action: CubeAction)
        requires
            0 <= drawn < 18,
        ensures
            action == drawn_turns()[drawn as int],
    {
        match drawn {
            0 => CubeAction::U,
            1 => CubeAction::UPrime,
            2 => CubeAction::D,
            3 => CubeAction::DPrime,
            4 => CubeAction::R,
            5 => CubeAction::RPrime,
            6 => CubeAction::L,
            7 => CubeAction::LPrime,
            8 => CubeAction::F,
            9 => CubeAction::FPrime,
            10 => CubeAction::B,
            11 => CubeAction::BPrime,
            12 => CubeAction::U2,
            13 => CubeAction::D2,
            14 => CubeAction::R2,
            15 => CubeAction::L2,
            16 => CubeAction::F2,
            _ => CubeAction::B2,
        }
    }

    /// A turn picked at random, whatever the generator hands out.
    pub fn random_move(rng: &mut ThreadRng) -> (action: CubeAction)
        ensures
            drawn_turns().contains(action),
    {
        let random = draw_below(rng, 18);
        let action = Self::from_draw(random);
        assert(drawn_turns()[random as int] == action);
        action
    }
}

impl Action for CubeAction {
    open spec fn wf(&self) -> bool {
        true
    }

    open spec fn cost(&self) -> nat {
        1
    }

    /// The letter of the face; after it an apostrophe for a quarter
    /// anticlockwise, a 2 for a half.
    open spec fn rendering(&self) -> Seq<char> {
        if self.quarters() == 1 {
            seq![side_char(self.face())]
        } else if self.quarters() == 3 {
            seq![side_char(self.face()), '\'']
        } else {
            seq![side_char(self.face()), '2']
        }
    }

    open spec fn parsed(text: Seq<char>) -> Option<Self> {
        if text.len() == 1 {
            match side_of(text[0]) {
                Some(face) => Some(CubeAction::of(face, 1)),
                None => None,
            }
        } else if text.len() == 2 {
            match side_of(text[0]) {
                Some(face) => if text[1] == '\'' {
                    Some(CubeAction::of(face, 3))
                } else if text[1] == '2' {
                    Some(CubeAction::of(face, 2))
                } else {
                    None
                },
                None => None,
            }
        } else {
            None
        }
    }

    proof fn lemma_round_trip(action: &Self) {
    }

    proof fn lemma_parsed_wf(text: Seq<char>) {
    }

    fn is_valid(&self) -> (valid: bool) {
        true
    }

    fn get_cost(&self) -> (c: u32) {
        1
    }

    fn to_string(&self) -> (s: String) {
        let (face, quarters) = self.parts();
        proof {
            reveal_strlit("U");
            reveal_strlit("D");
            reveal_strlit("F");
            reveal_strlit("B");
            reveal_strlit("R");
            reveal_strlit("L");
            reveal_strlit("'");
            reveal_strlit("2");
        }
        let letter = if face == 0 {
            "U"
        } else if face == 1 {
            "D"
        } else if face == 2 {
            "F"
        } else if face == 3 {
            "B"
        } else if face == 4 {
            "R"
        } else {
            "L"
        };
        let mut s = String::from_str(letter);
        if quarters == 3 {
            s.append("'");
        } else if quarters == 2 {
            s.append("2");
        }
        assert(s@ =~= self.rendering());
        s
    }

    fn from_str(s: &str) -> (r: Result<Self, ()>) {
        let len = s.unicode_len();
        if len != 1 && len != 2 {
            return Err(());
        }
        let letter = s.get_char(0);
        let face: u8 = if letter == 'U' {
            0
        } else if letter == 'D' {
            1
        } else if letter == 'F' {
            2
        } else if letter == 'B' {
            3
        } else if letter == 'R' {
            4
        } else if letter == 'L' {
            5
        } else {
            return Err(());
        };
        if len == 1 {
            Ok(CubeAction::from_parts(face, 1))
        } else {
            let mark = s.get_char(1);
            if mark == '\'' {
                Ok(CubeAction::from_parts(face, 3))
            } else if mark == '2' {
                Ok(CubeAction::from_parts(face, 2))
            } else {
                Err(())
            }
        }
    }

    fn duplicate(&self) -> (r: Self) {
        *self
    }

    fn equals(&self, other: &Self) -> (b: bool) {
        let (face, quarters) = self.parts();
        let (other_face, other_quarters) = other.parts();
        face == other_face && quarters == other_quarters
    }
}

/// The cube with the given faces.
pub open spec fn cube_of(faces: Seq<u32>) -> CubeState {
    CubeState { faces: [faces[0], faces[1], faces[2], faces[3], faces[4], faces[5]] }
}

/// The text form of a face: eight hexadecimal digits after `0x`.
pub open spec fn face_rendering(face: u32) -> Seq<char> {
    seq!['0', 'x'] + padded_numeral(face as int, 16, 8)
}

/// The text forms of the first `count` faces, with commas between them.
pub open spec fn faces_rendering(faces: Seq<u32>, count: int) -> Seq<char>
    decreases count,
{
    if count <= 0 {
        Seq::empty()
    } else if count == 1 {
        face_rendering(faces[0])
    } else {
        faces_rendering(faces, count - 1) + seq![','] + face_rendering(faces[count - 1])
    }
}

/// The marks that switch a terminal to a colour.
pub open spec fn color_code(color: Color) -> Seq<char> {
    match color {
        Color::White => "\x1b[37m"@,
        Color::Yellow => "\x1b[33m"@,
        Color::Red => "\x1b[31m"@,
        Color::Orange => "\x1b[35m"@,
        Color::Green => "\x1b[32m"@,
        Color::Blue => "\x1b[34m"@,
    }
}

/// A text between the marks that switch a terminal to a colour and back.
pub open spec fn colored(color: Color, text: Seq<char>) -> Seq<char> {
    color_code(color) + text + "\x1b[0m"@
}

/// The stickers in the order in which the picture shows them, each as
/// its face and its index; the index 8 stands for the centre of the face.
pub open spec fn layout() -> Seq<(int, int)> {
    seq![
        (3int, 4int),
        (3int, 5int),
        (3int, 6int),
        (3int, 3int),
        (3int, 8int),
        (3int, 7int),
        (3int, 2int),
        (3int, 1int),
        (3int, 1int),
        (4int, 6int),
        (4int, 7int),
        (4int, 0int),
        (0int, 0int),
        (0int, 1int),
        (0int, 2int),
        (5int, 2int),
        (5int, 3int),
        (5int, 4int),
        (1int, 4int),
        (1int, 5int),
        (1int, 6int),
        (4int, 5int),
        (4int, 8int),
        (4int, 1int),
        (0int, 7int),
        (0int, 8int),
        (0int, 3int),
        (5int, 1int),
        (5int, 8int),
        (5int, 5int),
        (1int, 3int),
        (1int, 8int),
        (1int, 7int),
        (4int, 4int),
        (4int, 3int),
        (4int, 2int),
        (0int, 6int),
        (0int, 5int),
        (0int, 4int),
        (5int, 0int),
        (5int, 7int),
        (5int, 6int),
        (1int, 2int),
        (1int, 1int),
        (1int, 0int),
        (2int, 0int),
        (2int, 1int),
        (2int, 2int),
        (2int, 7int),
        (2int, 8int),
        (2int, 3int),
        (2int, 6int),
        (2int, 5int),
        (2int, 4int),
    ]
}

/// The colour of the sticker that stands at the given place of the
/// layout.
pub open spec fn layout_color(faces: Seq<u32>, place: int) -> Color {
    let (face, index) = layout()[place];
    if index == 8 {
        Color::of(face as u32)
    } else {
        Color::of(sticker(faces[face], index))
    }
}

/// The picture of the `count` stickers from the given place of the layout
/// on: a block in the colour of each.
pub open spec fn blocks(faces: Seq<u32>, from: int, count: int) -> Seq<char>
    decreases count,
{
    if count <= 0 {
        Seq::empty()
    } else {
        blocks(faces, from, count - 1) + colored(
            layout_color(faces, from + count - 1),
            "\u{2593}"@,
        )
    }
}

/// The place of the layout at which a line of the picture begins.
pub open spec fn line_start(line: int) -> int {
    if line < 3 {
        3 * line
    } else if line < 6 {
        9 + 12 * (line - 3)
    } else {
        45 + 3 * (line - 6)
    }
}

/// A line of the picture: twelve stickers in the middle three lines, else
/// three stickers between blanks.
pub open spec fn line_picture(faces: Seq<u32>, line: int) -> Seq<char> {
    if 3 <= line < 6 {
        blocks(faces, line_start(line), 12)
    } else {
        "   "@ + blocks(faces, line_start(line), 3) + "      "@
    }
}

/// The first `count` lines of the picture.
pub open spec fn lines_picture(faces: Seq<u32>, count: int) -> Seq<char>
    decreases count,
{
    if count <= 0 {
        Seq::empty()
    } else if count == 1 {
        line_picture(faces, 0)
    } else {
        lines_picture(faces, count - 1) + seq!['\n'] + line_picture(faces, count - 1)
    }
}

/// The face and the index of the sticker at a place of the layout.
fn layout_entry(place: usize) -> (entry: (usize, usize))
    requires
        place < 54,
    ensures
        entry.0 == layout()[place as int].0,
        entry.1 == layout()[place as int].1,
        entry.0 < FACES,
        entry.1 <= 8,
{
    let table: [(usize, usize); 54] = [
        (3, 4),
        (3, 5),
        (3, 6),
        (3, 3),
        (3, 8),
        (3, 7),
        (3, 2),
        (3, 1),
        (3, 1),
        (4, 6),
        (4, 7),
        (4, 0),
        (0, 0),
        (0, 1),
        (0, 2),
        (5, 2),
        (5, 3),
        (5, 4),
        (1, 4),
        (1, 5),
        (1, 6),
        (4, 5),
        (4, 8),
        (4, 1),
        (0, 7),
        (0, 8),
        (0, 3),
        (5, 1),
        (5, 8),
        (5, 5),
        (1, 3),
        (1, 8),
        (1, 7),
        (4, 4),
        (4, 3),
        (4, 2),
        (0, 6),
        (0, 5),
        (0, 4),
        (5, 0),
        (5, 7),
        (5, 6),
        (1, 2),
        (1, 1),
        (1, 0),
        (2, 0),
        (2, 1),
        (2, 2),
        (2, 7),
        (2, 8),
        (2, 3),
        (2, 6),
        (2, 5),
        (2, 4),
    ];
    table[place]
}

impl Color {
    /// The text between the marks that switch a terminal to this colour
    /// and back.
    pub fn to_colored(&self, string: &str) -> (text: String)
        ensures
            text@ == colored(*self, string@),
    {
        let code = match self {
            Color::White => "\x1b[37m",
            Color::Yellow => "\x1b[33m",
            Color::Red => "\x1b[31m",
            Color::Orange => "\x1b[35m",
            Color::Green => "\x1b[32m",
            Color::Blue => "\x1b[34m",
        };
        let mut text = String::from_str(code);
        text.append(string);
        text.append("\x1b[0m");
        text
    }

    /// The colour of a number below six.
    pub fn from_number(number: u32) -> (color: Color)
        requires
            number < 6,
        ensures
            color == Color::of(number),
    {
        if number == 0 {
            Color::White
        } else if number == 1 {
            Color::Yellow
        } else if number == 2 {
            Color::Red
        } else if number == 3 {
            Color::Orange
        } else if number == 4 {
            Color::Green
        } else {
            Color::Blue
        }
    }
}

/// The block that shows the sticker of the given index on the face of the
/// given colour.
pub fn fcol(state: &CubeState, color: Color, index: usize) -> (text: String)
    requires
        valid_faces(state.faces@),
        index < 8,
    ensures
        text@ == colored(
            Color::of(sticker(state.faces@[color.index() as int], index as int)),
            "\u{2593}"@,
        ),
{
    let face = state.faces[color.to_index() as usize];
    proof {
        lemma_sticker(face, index as int);
    }
    Color::get_color_at(face, index).to_colored("\u{2593}")
}

/// The block that shows the centre of the face of the given colour.
pub fn ccol(color: Color) -> (text: String)
    ensures
        text@ == colored(color, "\u{2593}"@),
{
    color.to_colored("\u{2593}")
}

impl CubeState {
    /// The solved cube.
    pub open spec fn solved() -> CubeState {
        cube_of(solved_faces())
    }

    /// The cube scrambled by as many random turns as asked for, with the
    /// turns that were made.
    pub fn scrambled_cube(action_count: u32) -> (scrambled: (Self, Vec<CubeAction>))
        ensures
            scrambled.1@.len() == action_count,
            scrambled.0.wf(),
            scrambled.0 == walk(CubeState::solved(), scrambled.1@),
    {
        let mut rng = thread_rng();
        let mut cube = CubeState::default();
        let mut actions: Vec<CubeAction> = Vec::new();
        let mut i: u32 = 0;
        assert(cube.faces =~= CubeState::solved().faces);
        while i < action_count
            invariant
                i <= action_count,
                actions@.len() == i,
                cube.wf(),
                cube == walk(CubeState::solved(), actions@),
            decreases action_count - i,
        {
            let action = CubeAction::random_move(&mut rng);
            let ghost before = actions@;
            proof {
                lemma_all_turns(action);
                CubeState::lemma_legal_actions(&cube);
            }
            cube = cube.perform_action(&action);
            actions.push(action);
            proof {
                assert(actions@.drop_last() =~= before);
            }
            i += 1;
        }
        (cube, actions)
    }
}

/// Every turn is among those that are tried.
pub proof fn lemma_all_turns(action: CubeAction)
    ensures
        all_turns().contains(action),
{
    let i = CubeAction::order(action.face()) * 3 + if action.quarters() == 1 {
        0int
    } else if action.quarters() == 3 {
        1int
    } else {
        2int
    };
    assert(all_turns()[i] == action);
}

impl State for CubeState {
    type Action = CubeAction;

    /// Each sticker has the number of a colour.
    open spec fn wf(&self) -> bool {
        valid_faces(self.faces@)
    }

    /// Every turn of every face.
    open spec fn legal_actions(&self) -> Seq<CubeAction> {
        all_turns()
    }

    open spec fn successor(&self, action: &CubeAction) -> CubeState {
        cube_of(turned(self.faces@, action.face(), action.quarters()))
    }

    open spec fn is_goal(&self) -> bool {
        self.faces@ == solved_faces()
    }

    /// Nothing: the search is led by the cost alone.
    open spec fn estimate(&self) -> nat {
        0
    }

    /// The text forms of the six faces, with commas between them.
    open spec fn rendering(&self) -> Seq<char> {
        faces_rendering(self.faces@, 6)
    }

    /// The cube unfolded: the face of colour 3 above, those of the colours
    /// 4, 0, 5 and 1 side by side, the face of colour 2 below.
    open spec fn picture(&self) -> Seq<char> {
        lines_picture(self.faces@, 9)
    }

    proof fn lemma_legal_actions(state: &Self) {
        assert forall|action: CubeAction| #[trigger]
            all_turns().contains(action) implies state.successor(&action).wf() by {
            lemma_turned(state.faces@, action.face(), action.quarters());
            let after = turned(state.faces@, action.face(), action.quarters());
            assert(cube_of(after).faces@ =~= after);
        }
    }

    /// Whether each sticker has the number of a colour.
    fn is_valid(&self) -> (valid: bool) {
        let mut f: usize = 0;
        while f < 6
            invariant
                f <= 6,
                forall|g: int| 0 <= g < f ==> valid_face(#[trigger] self.faces@[g]),
            decreases 6 - f,
        {
            let face = self.faces[f];
            let mut k: usize = 0;
            while k < 8
                invariant
                    k <= 8,
                    f < 6,
                    face == self.faces@[f as int],
                    forall|index: int|
                        0 <= index < k ==> (#[trigger] (face >> ((4 * index) as u32))) & 0xf < 6,
                decreases 8 - k,
            {
                if (face >> ((4 * k) as u32)) & 0xf >= 6 {
                    assert(!valid_face(face)) by {
                        assert(!((face >> ((4 * (k as int)) as u32)) & 0xf < 6));
                    }
                    return false;
                }
                k += 1;
            }
            f += 1;
        }
        true
    }

    fn display_pretty(&self) -> (s: String) {
        let mut s = String::new();
        let mut line: usize = 0;
        assert(s@ =~= lines_picture(self.faces@, 0));
        while line < 9
            invariant
                line <= 9,
                valid_faces(self.faces@),
                s@ == lines_picture(self.faces@, line as int),
            decreases 9 - line,
        {
            let ghost above = s@;
            let wide = 3 <= line && line < 6;
            let start = if line < 3 {
                3 * line
            } else if line < 6 {
                9 + 12 * (line - 3)
            } else {
                45 + 3 * (line - 6)
            };
            let count: usize = if wide {
                12
            } else {
                3
            };
            let mut text = if wide {
                String::new()
            } else {
                String::from_str("   ")
            };
            let ghost lead = text@;
            let mut i: usize = 0;
            assert(text@ =~= lead + blocks(self.faces@, start as int, 0));
            while i < count
                invariant
                    i <= count,
                    start + count <= 54,
                    valid_faces(self.faces@),
                    text@ == lead + blocks(self.faces@, start as int, i as int),
                decreases count - i,
            {
                let (face, index) = layout_entry(start + i);
                let block = if index == 8 {
                    ccol(Color::from_number(face as u32))
                } else {
                    proof {
                        lemma_sticker(self.faces@[face as int], index as int);
                    }
                    Color::get_color_at(self.faces[face], index).to_colored("\u{2593}")
                };
                text.append(block.as_str());
                i += 1;
                assert(text@ =~= lead + blocks(self.faces@, start as int, i as int));
            }
            if !wide {
                text.append("      ");
            }
            assert(text@ =~= line_picture(self.faces@, line as int));
            if line > 0 {
                s.append("\n");
                proof {
                    reveal_strlit("\n");
                }
            }
            s.append(text.as_str());
            line += 1;
            assert(s@ =~= lines_picture(self.faces@, line as int));
        }
        s
    }

    fn list_actions(&self) -> (actions: Vec<CubeAction>) {
        let mut actions = Vec::new();
        actions.push(CubeAction::U);
        actions.push(CubeAction::UPrime);
        actions.push(CubeAction::U2);
        actions.push(CubeAction::D);
        actions.push(CubeAction::DPrime);
        actions.push(CubeAction::D2);
        actions.push(CubeAction::R);
        actions.push(CubeAction::RPrime);
        actions.push(CubeAction::R2);
        actions.push(CubeAction::L);
        actions.push(CubeAction::LPrime);
        actions.push(CubeAction::L2);
        actions.push(CubeAction::F);
        actions.push(CubeAction::FPrime);
        actions.push(CubeAction::F2);
        actions.push(CubeAction::B);
        actions.push(CubeAction::BPrime);
        actions.push(CubeAction::B2);
        assert(actions@ =~= all_turns());
        actions
    }

    fn perform_action(&self, action: &CubeAction) -> (next: CubeState) {
        let new_faces = match action {
            CubeAction::U => CubeState::rotate_cw(self.faces, 0),
            CubeAction::UPrime => CubeState::rotate_ccw(self.faces, 0),
            CubeAction::U2 => CubeState::rotate_180(self.faces, 0),
            CubeAction::D => CubeState::rotate_cw(self.faces, 1),
            CubeAction::DPrime => CubeState::rotate_ccw(self.faces, 1),
            CubeAction::D2 => CubeState::rotate_180(self.faces, 1),
            CubeAction::R => CubeState::rotate_cw(self.faces, 4),
            CubeAction::RPrime => CubeState::rotate_ccw(self.faces, 4),
            CubeAction::R2 => CubeState::rotate_180(self.faces, 4),
            CubeAction::L => CubeState::rotate_cw(self.faces, 5),
            CubeAction::LPrime => CubeState::rotate_ccw(self.faces, 5),
            CubeAction::L2 => CubeState::rotate_180(self.faces, 5),
            CubeAction::F => CubeState::rotate_cw(self.faces, 2),
            CubeAction::FPrime => CubeState::rotate_ccw(self.faces, 2),
            CubeAction::F2 => CubeState::rotate_180(self.faces, 2),
            CubeAction::B => CubeState::rotate_cw(self.faces, 3),
            CubeAction::BPrime => CubeState::rotate_ccw(self.faces, 3),
            CubeAction::B2 => CubeState::rotate_180(self.faces, 3),
        };
        let next = CubeState { faces: new_faces };
        assert(next.faces =~= self.successor(action).faces);
        proof {
            lemma_all_turns(*action);
            Self::lemma_legal_actions(self);
        }
        next
    }

    fn is_goal_state(&self) -> (b: bool) {
        let solved = CubeState::default_cube();
        let mut f: usize = 0;
        while f < 6
            invariant
                f <= 6,
                solved@ == solved_faces(),
                forall|g: int| 0 <= g < f ==> self.faces@[g] == solved_faces()[g],
            decreases 6 - f,
        {
            if self.faces[f] != solved[f] {
                return false;
            }
            f += 1;
        }
        assert(self.faces@ =~= solved_faces());
        true
    }

    fn heuristic(&self) -> (h: u32) {
        0
    }

    fn to_string(&self) -> (s: String) {
        let mut s = String::new();
        let mut f: usize = 0;
        assert(s@ =~= faces_rendering(self.faces@, 0));
        while f < 6
            invariant
                f <= 6,
                s@ == faces_rendering(self.faces@, f as int),
            decreases 6 - f,
        {
            if f > 0 {
                s.append(",");
            }
            s.append("0x");
            append_padded_numeral(&mut s, self.faces[f] as u64, 16, 8);
            f += 1;
            proof {
                reveal_strlit(",");
                reveal_strlit("0x");
                assert(s@ =~= faces_rendering(self.faces@, f as int));
            }
        }
        s
    }

    fn duplicate(&self) -> (r: Self) {
        CubeState { faces: self.faces }
    }

    fn equals(&self, other: &Self) -> (b: bool) {
        let mut f: usize = 0;
        while f < 6
            invariant
                f <= 6,
                forall|g: int| 0 <= g < f ==> self.faces@[g] == other.faces@[g],
            decreases 6 - f,
        {
            if self.faces[f] != other.faces[f] {
                return false;
            }
            f += 1;
        }
        assert(self.faces =~= other.faces);
        true
    }
}

} // verus!
