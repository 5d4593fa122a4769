//! Enumerations kept in the settings by index: the simulated modem rate of the
//! type-out playback, the rebindable navigation actions, and the image
//! adjustment operations with the user's chosen order of them.

use vstd::prelude::*;
use crate::text::string_from_chars;

verus! {

/// Simulated modem rate for the type-out playback of text-mode and RIP art;
/// `Off` (labelled "None") renders at once.
#[derive(Clone, Copy, PartialEq, Eq, Debug, Structural)]
pub enum Baud {
    Off,
    B300,
    B1200,
    B2400,
    B4800,
    B9600,
    B14400,
    B28800,
    B33600,
    B56000,
    B115200,
}

/// The persisted index of each rate (its place in the rate list).
pub open spec fn baud_index(b: Baud) -> int {
    match b {
        Baud::Off => 0,
        Baud::B300 => 1,
        Baud::B1200 => 2,
        Baud::B2400 => 3,
        Baud::B4800 => 4,
        Baud::B9600 => 5,
        Baud::B14400 => 6,
        Baud::B28800 => 7,
        Baud::B33600 => 8,
        Baud::B56000 => 9,
        Baud::B115200 => 10,
    }
}

/// The label of each rate in the playback menu.
pub open spec fn baud_label(b: Baud) -> Seq<char> {
    match b {
        Baud::Off => "None"@,
        Baud::B300 => "300"@,
        Baud::B1200 => "1200"@,
        Baud::B2400 => "2400"@,
        Baud::B4800 => "4800"@,
        Baud::B9600 => "9600"@,
        Baud::B14400 => "14.4k"@,
        Baud::B28800 => "28.8k"@,
        Baud::B33600 => "33.6k"@,
        Baud::B56000 => "56k"@,
        Baud::B115200 => "115.2k"@,
    }
}

impl Baud {
    /// Every rate, slowest first after `None`.
    pub fn all() -> (v: Vec<Baud>)
        ensures
            v@.len() == 11,
            forall|i: int| 0 <= i < 11 ==> baud_index(#[trigger] v@[i]) == i,
    {
        vec![
            Baud::Off,
            Baud::B300,
            Baud::B1200,
            Baud::B2400,
            Baud::B4800,
            Baud::B9600,
            Baud::B14400,
            Baud::B28800,
            Baud::B33600,
            Baud::B56000,
            Baud::B115200,
        ]
    }

    /// The rate's menu label.
    pub fn label(self) -> (s: &'static str)
        ensures
            s@ == baud_label(self),
    {
        match self {
            Baud::Off => "None",
            Baud::B300 => "300",
            Baud::B1200 => "1200",
            Baud::B2400 => "2400",
            Baud::B4800 => "4800",
            Baud::B9600 => "9600",
            Baud::B14400 => "14.4k",
            Baud::B28800 => "28.8k",
            Baud::B33600 => "33.6k",
            Baud::B56000 => "56k",
            Baud::B115200 => "115.2k",
        }
    }

    /// The rate's persisted index.
    pub fn to_u8(self) -> (v: u8)
        ensures
            v == baud_index(self),
    {
        match self {
            Baud::Off => 0,
            Baud::B300 => 1,
            Baud::B1200 => 2,
            Baud::B2400 => 3,
            Baud::B4800 => 4,
            Baud::B9600 => 5,
            Baud::B14400 => 6,
            Baud::B28800 => 7,
            Baud::B33600 => 8,
            Baud::B56000 => 9,
            Baud::B115200 => 10,
        }
    }

    /// The rate with persisted index `v`; an unknown index reads as `Off`.
    pub fn from_u8(v: u8) -> (b: Baud)
        ensures
            v < 11 ==> baud_index(b) == v,
            v >= 11 ==> b == Baud::Off,
    {
        match v {
            1 => Baud::B300,
            2 => Baud::B1200,
            3 => Baud::B2400,
            4 => Baud::B4800,
            5 => Baud::B9600,
            6 => Baud::B14400,
            7 => Baud::B28800,
            8 => Baud::B33600,
            9 => Baud::B56000,
            10 => Baud::B115200,
            _ => Baud::Off,
        }
    }
}

/// Reading a rate back from its persisted index gives the rate.
pub proof fn baud_index_round_trip(b: Baud)
    ensures
        0 <= baud_index(b) < 11,
        forall|c: Baud| baud_index(c) == baud_index(b) ==> c == b,
{
}

/// A rebindable navigation action.
#[derive(Clone, Copy, PartialEq, Eq, Debug, Structural)]
pub enum Action {
    PrevImage,
    NextImage,
    BackToGrid,
    ParentDir,
    ToggleView,
}

/// The persisted index of each action.
pub open spec fn action_index(a: Action) -> int {
    match a {
        Action::PrevImage => 0,
        Action::NextImage => 1,
        Action::BackToGrid => 2,
        Action::ParentDir => 3,
        Action::ToggleView => 4,
    }
}

/// The label of each action in the key bindings list.
pub open spec fn action_label(a: Action) -> Seq<char> {
    match a {
        Action::PrevImage => "Previous image"@,
        Action::NextImage => "Next image"@,
        Action::BackToGrid => "Back to grid"@,
        Action::ParentDir => "Parent folder"@,
        Action::ToggleView => "Toggle grid / table view"@,
    }
}

impl Action {
    /// Every action, in persisted order.
    pub fn all() -> (v: Vec<Action>)
        ensures
            v@.len() == 5,
            forall|i: int| 0 <= i < 5 ==> action_index(#[trigger] v@[i]) == i,
    {
        vec![
            Action::PrevImage,
            Action::NextImage,
            Action::BackToGrid,
            Action::ParentDir,
            Action::ToggleView,
        ]
    }

    /// The action's label.
    pub fn label(self) -> (s: &'static str)
        ensures
            s@ == action_label(self),
    {
        match self {
            Action::PrevImage => "Previous image",
            Action::NextImage => "Next image",
            Action::BackToGrid => "Back to grid",
            Action::ParentDir => "Parent folder",
            Action::ToggleView => "Toggle grid / table view",
        }
    }

    /// The action's persisted index.
    pub fn to_u8(self) -> (v: u8)
        ensures
            v == action_index(self),
    {
        match self {
            Action::PrevImage => 0,
            Action::NextImage => 1,
            Action::BackToGrid => 2,
            Action::ParentDir => 3,
            Action::ToggleView => 4,
        }
    }
}

/// The image adjustment operations, in declaration order (which is also their
/// persisted index). The order they are applied in is the user's.
#[derive(Clone, Copy, PartialEq, Eq, Debug, Structural)]
pub enum OpKind {
    Brightness,
    Contrast,
    Gamma,
    Shadows,
    Highlights,
    Posterize,
    Hue,
    Saturation,
    Vibrance,
    Pixelate,
    Sharpen,
    Palette,
    Invert,
    ColorBalance,
    Dither,
}

/// The persisted index of each operation.
pub open spec fn op_index(o: OpKind) -> int {
    match o {
        OpKind::Brightness => 0,
        OpKind::Contrast => 1,
        OpKind::Gamma => 2,
        OpKind::Shadows => 3,
        OpKind::Highlights => 4,
        OpKind::Posterize => 5,
        OpKind::Hue => 6,
        OpKind::Saturation => 7,
        OpKind::Vibrance => 8,
        OpKind::Pixelate => 9,
        OpKind::Sharpen => 10,
        OpKind::Palette => 11,
        OpKind::Invert => 12,
        OpKind::ColorBalance => 13,
        OpKind::Dither => 14,
    }
}

/// The operation with persisted index `b`, if there is one.
pub open spec fn op_of(b: int) -> Option<OpKind> {
    if b == 0 {
        Some(OpKind::Brightness)
    } else if b == 1 {
        Some(OpKind::Contrast)
    } else if b == 2 {
        Some(OpKind::Gamma)
    } else if b == 3 {
        Some(OpKind::Shadows)
    } else if b == 4 {
        Some(OpKind::Highlights)
    } else if b == 5 {
        Some(OpKind::Posterize)
    } else if b == 6 {
        Some(OpKind::Hue)
    } else if b == 7 {
        Some(OpKind::Saturation)
    } else if b == 8 {
        Some(OpKind::Vibrance)
    } else if b == 9 {
        Some(OpKind::Pixelate)
    } else if b == 10 {
        Some(OpKind::Sharpen)
    } else if b == 11 {
        Some(OpKind::Palette)
    } else if b == 12 {
        Some(OpKind::Invert)
    } else if b == 13 {
        Some(OpKind::ColorBalance)
    } else if b == 14 {
        Some(OpKind::Dither)
    } else {
        None
    }
}

/// Reading an operation back from its persisted index gives the operation, and
/// no other index names it.
pub proof fn op_index_round_trip(o: OpKind)
    ensures
        0 <= op_index(o) < 15,
        op_of(op_index(o)) == Some(o),
        forall|b: int| #[trigger] op_of(b) == Some(o) ==> b == op_index(o),
{
}

impl OpKind {
    /// The operation with persisted index `b`, if there is one.
    pub fn from_u8(b: u8) -> (r: Option<OpKind>)
        ensures
            r == op_of(b as int),
    {
        match b {
            0 => Some(OpKind::Brightness),
            1 => Some(OpKind::Contrast),
            2 => Some(OpKind::Gamma),
            3 => Some(OpKind::Shadows),
            4 => Some(OpKind::Highlights),
            5 => Some(OpKind::Posterize),
            6 => Some(OpKind::Hue),
            7 => Some(OpKind::Saturation),
            8 => Some(OpKind::Vibrance),
            9 => Some(OpKind::Pixelate),
            10 => Some(OpKind::Sharpen),
            11 => Some(OpKind::Palette),
            12 => Some(OpKind::Invert),
            13 => Some(OpKind::ColorBalance),
            14 => Some(OpKind::Dither),
            _ => None,
        }
    }

    /// The operation's persisted index.
    pub fn to_u8(self) -> (v: u8)
        ensures
            v == op_index(self),
    {
        match self {
            OpKind::Brightness => 0,
            OpKind::Contrast => 1,
            OpKind::Gamma => 2,
            OpKind::Shadows => 3,
            OpKind::Highlights => 4,
            OpKind::Posterize => 5,
            OpKind::Hue => 6,
            OpKind::Saturation => 7,
            OpKind::Vibrance => 8,
            OpKind::Pixelate => 9,
            OpKind::Sharpen => 10,
            OpKind::Palette => 11,
            OpKind::Invert => 12,
            OpKind::ColorBalance => 13,
            OpKind::Dither => 14,
        }
    }

    /// Marker operations have no slider: the palette snap, the colour balance
    /// and the dither, whose controls live in sections of their own.
    pub fn is_marker(self) -> (b: bool)
        ensures
            b <==> (self == OpKind::Palette || self == OpKind::ColorBalance || self
                == OpKind::Dither),
    {
        match self {
            OpKind::Palette | OpKind::ColorBalance | OpKind::Dither => true,
            _ => false,
        }
    }
}

/// Every operation, in declaration order.
pub fn all_ops() -> (v: Vec<OpKind>)
    ensures
        v@.len() == 15,
        forall|i: int| 0 <= i < 15 ==> op_index(#[trigger] v@[i]) == i,
{
    vec![
        OpKind::Brightness,
        OpKind::Contrast,
        OpKind::Gamma,
        OpKind::Shadows,
        OpKind::Highlights,
        OpKind::Posterize,
        OpKind::Hue,
        OpKind::Saturation,
        OpKind::Vibrance,
        OpKind::Pixelate,
        OpKind::Sharpen,
        OpKind::Palette,
        OpKind::Invert,
        OpKind::ColorBalance,
        OpKind::Dither,
    ]
}

/// The default pipeline order: pixelate, the tone curve, invert, colour,
/// balance, sharpen, dither, and the palette snap last.
pub fn default_order() -> (v: Vec<OpKind>)
    ensures
        v@ == seq![
            OpKind::Pixelate,
            OpKind::Brightness,
            OpKind::Contrast,
            OpKind::Gamma,
            OpKind::Shadows,
            OpKind::Highlights,
            OpKind::Posterize,
            OpKind::Invert,
            OpKind::Hue,
            OpKind::Saturation,
            OpKind::Vibrance,
            OpKind::ColorBalance,
            OpKind::Sharpen,
            OpKind::Dither,
            OpKind::Palette,
        ],
{
    vec![
        OpKind::Pixelate,
        OpKind::Brightness,
        OpKind::Contrast,
        OpKind::Gamma,
        OpKind::Shadows,
        OpKind::Highlights,
        OpKind::Posterize,
        OpKind::Invert,
        OpKind::Hue,
        OpKind::Saturation,
        OpKind::Vibrance,
        OpKind::ColorBalance,
        OpKind::Sharpen,
        OpKind::Dither,
        OpKind::Palette,
    ]
}

/// No operation occurs twice in `s`.
pub open spec fn no_repeats(s: Seq<OpKind>) -> bool {
    forall|i: int, j: int| 0 <= i < j < s.len() ==> #[trigger] s[i] != #[trigger] s[j]
}

/// The operations a persisted order names, in its order: unknown indices and
/// repeats dropped.
pub open spec fn known_ops(arr: Seq<u8>) -> Seq<OpKind>
    decreases arr.len(),
{
    if arr.len() == 0 {
        seq![]
    } else {
        let prev = known_ops(arr.drop_last());
        match op_of(arr.last() as int) {
            Some(o) => if prev.contains(o) {
                prev
            } else {
                prev.push(o)
            },
            None => prev,
        }
    }
}

/// `ops` followed by the operations of `current` it lacks, in `current`'s order.
pub open spec fn with_missing(ops: Seq<OpKind>, current: Seq<OpKind>) -> Seq<OpKind>
    decreases current.len(),
{
    if current.len() == 0 {
        ops
    } else {
        let prev = with_missing(ops, current.drop_last());
        if prev.contains(current.last()) {
            prev
        } else {
            prev.push(current.last())
        }
    }
}

/// The order adopted from the persisted `arr`: its known operations (first
/// mention wins), then whatever `current` has that it lacks; if that does not
/// make a full set of all fifteen, `current` stays.
pub open spec fn adopted_order(current: Seq<OpKind>, arr: Seq<u8>) -> Seq<OpKind> {
    let merged = with_missing(known_ops(arr), current);
    if merged.len() == 15 {
        merged
    } else {
        current
    }
}

fn contains_op(v: &Vec<OpKind>, o: OpKind) -> (r: bool)
    ensures
        r == v@.contains(o),
{
    let mut i: usize = 0;
    while i < v.len()
        invariant
            i <= v@.len(),
            forall|k: int| 0 <= k < i ==> v@[k] != o,
        decreases v@.len() - i,
    {
        if v[i] == o {
            return true;
        }
        i = i + 1;
    }
    false
}

/// Adopt a persisted operation order: unknown and repeated entries are ignored
/// and the operations it misses are appended in `current`'s order, so a
/// corrupted or older order still yields a full set; if it cannot, `current` is
/// kept.
pub fn with_order(current: &[OpKind], arr: &[u8]) -> (r: Vec<OpKind>)
    ensures
        r@ == adopted_order(current@, arr@),
{
    let mut ops: Vec<OpKind> = Vec::new();
    let mut i: usize = 0;
    while i < arr.len()
        invariant
            i <= arr@.len(),
            ops@ == known_ops(arr@.subrange(0, i as int)),
        decreases arr@.len() - i,
    {
        proof {
            assert(arr@.subrange(0, i + 1).drop_last() =~= arr@.subrange(0, i as int));
        }
        match OpKind::from_u8(arr[i]) {
            Some(op) => {
                if !contains_op(&ops, op) {
                    ops.push(op);
                }
            },
            None => {},
        }
        i = i + 1;
    }
    proof {
        assert(arr@.subrange(0, arr@.len() as int) =~= arr@);
    }
    let ghost known = ops@;
    let mut k: usize = 0;
    while k < current.len()
        invariant
            k <= current@.len(),
            known == known_ops(arr@),
            ops@ == with_missing(known, current@.subrange(0, k as int)),
        decreases current@.len() - k,
    {
        proof {
            assert(current@.subrange(0, k + 1).drop_last() =~= current@.subrange(0, k as int));
        }
        let op = current[k];
        if !contains_op(&ops, op) {
            ops.push(op);
        }
        k = k + 1;
    }
    proof {
        assert(current@.subrange(0, current@.len() as int) =~= current@);
    }
    if ops.len() == 15 {
        ops
    } else {
        copy_ops(current)
    }
}

fn copy_ops(v: &[OpKind]) -> (r: Vec<OpKind>)
    ensures
        r@ == v@,
{
    let mut r: Vec<OpKind> = Vec::new();
    let mut i: usize = 0;
    while i < v.len()
        invariant
            i <= v@.len(),
            r@ == v@.subrange(0, i as int),
        decreases v@.len() - i,
    {
        r.push(v[i]);
        proof {
            assert(v@.subrange(0, i + 1) =~= v@.subrange(0, i as int).push(v@[i as int]));
        }
        i = i + 1;
    }
    proof {
        assert(v@.subrange(0, v@.len() as int) =~= v@);
    }
    r
}

proof fn lemma_known_ops_no_repeats(arr: Seq<u8>)
    ensures
        no_repeats(known_ops(arr)),
    decreases arr.len(),
{
    if arr.len() > 0 {
        lemma_known_ops_no_repeats(arr.drop_last());
    }
}

proof fn lemma_with_missing(ops: Seq<OpKind>, current: Seq<OpKind>)
    requires
        no_repeats(ops),
    ensures
        no_repeats(with_missing(ops, current)),
        forall|o: OpKind| current.contains(o) ==> with_missing(ops, current).contains(o),
    decreases current.len(),
{
    if current.len() > 0 {
        let prev = with_missing(ops, current.drop_last());
        lemma_with_missing(ops, current.drop_last());
        assert forall|o: OpKind| current.contains(o) implies with_missing(ops, current).contains(o) by {
            let i = choose|i: int| 0 <= i < current.len() && current[i] == o;
            if i < current.len() - 1 {
                assert(current.drop_last()[i] == o);
                assert(current.drop_last().contains(o));
                let j = choose|j: int| 0 <= j < prev.len() && prev[j] == o;
                if !prev.contains(current.last()) {
                    assert(prev.push(current.last())[j] == o);
                }
            } else if !prev.contains(current.last()) {
                assert(prev.push(current.last())[prev.len() as int] == o);
            }
        }
    }
}

/// Adopting any persisted order keeps a full set of operations a full set:
/// when `current` holds every operation once, so does the adopted order.
pub proof fn with_order_keeps_every_op_once(current: Seq<OpKind>, arr: Seq<u8>)
    requires
        no_repeats(current),
        forall|o: OpKind| #[trigger] current.contains(o),
    ensures
        no_repeats(adopted_order(current, arr)),
        forall|o: OpKind| #[trigger] adopted_order(current, arr).contains(o),
{
    lemma_known_ops_no_repeats(arr);
    lemma_with_missing(known_ops(arr), current);
    assert forall|o: OpKind| #[trigger] adopted_order(current, arr).contains(o) by {
        assert(current.contains(o));
        assert(with_missing(known_ops(arr), current).contains(o));
    }
}

/// The order as text, one letter per operation (`a` for index 0): part of the
/// key that caches an adjusted preview.
pub open spec fn order_letters(order: Seq<OpKind>) -> Seq<char> {
    order.map_values(|o: OpKind| ((op_index(o) + 97) as u8) as char)
}

/// The order's letters, as a string.
pub fn order_key(order: &[OpKind]) -> (s: String)
    ensures
        s@ == order_letters(order@),
{
    let mut out: Vec<char> = Vec::new();
    let mut i: usize = 0;
    while i < order.len()
        invariant
            i <= order@.len(),
            out@ == order_letters(order@.subrange(0, i as int)),
        decreases order@.len() - i,
    {
        let b: u8 = order[i].to_u8() + 97;
        out.push(b as char);
        proof {
            assert(order_letters(order@.subrange(0, i + 1)) =~= order_letters(
                order@.subrange(0, i as int),
            ).push(b as char));
        }
        i = i + 1;
    }
    proof {
        assert(order@.subrange(0, order@.len() as int) =~= order@);
    }
    string_from_chars(&out)
}

/// The order as persisted indices.
pub fn order_indices(order: &[OpKind]) -> (v: Vec<u8>)
    ensures
        v@.len() == order@.len(),
        forall|i: int| 0 <= i < order@.len() ==> v@[i] == op_index(#[trigger] order@[i]),
{
    let mut v: Vec<u8> = Vec::new();
    let mut i: usize = 0;
    while i < order.len()
        invariant
            i <= order@.len(),
            v@.len() == i,
            forall|k: int| 0 <= k < i ==> v@[k] == op_index(#[trigger] order@[k]),
        decreases order@.len() - i,
    {
        v.push(order[i].to_u8());
        i = i + 1;
    }
    v
}

} // verus!
