//! Reading a move typed as a row letter and a column number, such as `B7`.
use vstd::prelude::*;
use vstd::string::StringSliceAdditionalSpecFns;
use crate::mask::GRID_SIZE;
use crate::duel::{free_cell, ship_cells, GameState, Orientation, ShipType};

verus! {

/// ASCII white space.
pub open spec fn is_space(b: u8) -> bool {
    b == 32 || (9 <= b && b <= 13)
}

/// The bytes without white space at either end.
pub open spec fn trimmed(s: Seq<u8>) -> Seq<u8>
    decreases s.len(),
{
    if s.len() > 0 && is_space(s[0]) {
        trimmed(s.drop_first())
    } else if s.len() > 0 && is_space(s.last()) {
        trimmed(s.drop_last())
    } else {
        s
    }
}

/// The upper-case form of an ASCII letter; any other byte as it is.
pub open spec fn upper(b: u8) -> u8 {
    if 97 <= b && b <= 122 {
        (b - 32) as u8
    } else {
        b
    }
}

pub open spec fn is_digit(b: u8) -> bool {
    48 <= b && b <= 57
}

/// The number that decimal digits spell.
pub open spec fn number(s: Seq<u8>) -> nat
    decreases s.len(),
{
    if s.len() == 0 {
        0
    } else {
        number(s.drop_last()) * 10 + (s.last() - 48) as nat
    }
}

/// The bytes after one leading `+`, if there is one.
pub open spec fn unsigned_digits(s: Seq<u8>) -> Seq<u8> {
    if s.len() > 0 && s[0] == 43 {
        s.drop_first()
    } else {
        s
    }
}

/// The value of an unsigned decimal number, with at most one leading `+`, when it
/// fits in a `usize`.
pub open spec fn unsigned_value(s: Seq<u8>) -> Option<nat> {
    let d = unsigned_digits(s);
    if d.len() > 0 && (forall|i: int| 0 <= i < d.len() ==> is_digit(#[trigger] d[i])) && number(d)
        <= usize::MAX {
        Some(number(d))
    } else {
        None
    }
}

/// The cell a typed move names: a row letter (either case) and a column number
/// from 1, around white space; `(0, 0)` when it names no cell, and column 1 when the
/// number cannot be read.
pub open spec fn move_of(s: Seq<u8>) -> (usize, usize) {
    let t = trimmed(s);
    if t.len() < 2 {
        (0, 0)
    } else {
        let row = upper(t[0]) - 65;
        let col = match unsigned_value(t.drop_first()) {
            Some(v) => v as int,
            None => 1,
        };
        if row < 0 || row >= GRID_SIZE || col == 0 || col > GRID_SIZE {
            (0, 0)
        } else {
            (row as usize, (col - 1) as usize)
        }
    }
}

proof fn lemma_number_grows(s: Seq<u8>, k: int)
    requires
        0 <= k <= s.len(),
        forall|i: int| 0 <= i < s.len() ==> is_digit(#[trigger] s[i]),
    ensures
        number(s.take(k)) <= number(s),
    decreases s.len() - k,
{
    if k < s.len() {
        lemma_number_grows(s, k + 1);
        assert(s.take(k + 1).drop_last() =~= s.take(k));
    } else {
        assert(s.take(k) =~= s);
    }
}

/// The value of the unsigned decimal number in `d[from..]`, if it is one and fits.
fn read_unsigned(d: &[u8], from: usize) -> (r: Option<usize>)
    requires
        from <= d@.len(),
    ensures
        match unsigned_value(d@.subrange(from as int, d@.len() as int)) {
            Some(v) => r == Some(v as usize),
            None => r.is_none(),
        },
{
    let ghost s = d@.subrange(from as int, d@.len() as int);
    let mut i = from;
    if i < d.len() && d[i] == 43 {
        i = i + 1;
    }
    let ghost t = d@.subrange(i as int, d@.len() as int);
    assert(t =~= unsigned_digits(s));
    if i >= d.len() {
        return None;
    }
    let mut v: u128 = 0;
    let mut big = false;
    let mut k = i;
    while k < d.len()
        invariant
            from <= i <= k <= d@.len(),
            t == d@.subrange(i as int, d@.len() as int),
            s == d@.subrange(from as int, d@.len() as int),
            t == unsigned_digits(s),
            t.len() > 0,
            forall|j: int| 0 <= j < k - i ==> is_digit(#[trigger] t[j]),
            !big ==> v == number(t.take(k - i)) && v <= usize::MAX,
            big ==> number(t.take(k - i)) > usize::MAX,
        decreases d@.len() - k,
    {
        let b = d[k];
        if b < 48 || b > 57 {
            assert(!is_digit(t[k - i]));
            assert(!(forall|j: int| 0 <= j < t.len() ==> is_digit(#[trigger] t[j])));
            return None;
        }
        proof {
            assert(t.take(k - i + 1).drop_last() =~= t.take(k - i));
            assert(t[k - i] == b);
        }
        if !big {
            v = v * 10 + (b - 48) as u128;
            if v > usize::MAX as u128 {
                big = true;
            }
        } else {
            assert(number(t.take(k - i + 1)) >= number(t.take(k - i))) by (nonlinear_arith)
                requires
                    number(t.take(k - i + 1)) == number(t.take(k - i)) * 10 + (b - 48) as nat,
            ;
        }
        k = k + 1;
    }
    assert(t.take(t.len() as int) =~= t);
    if big {
        None
    } else {
        Some(v as usize)
    }
}

/// The cell that the typed move `input` names; `(0, 0)` when it names none.
pub fn parse_move(input: &str) -> (r: (usize, usize))
    ensures
        r == move_of(input.spec_bytes()),
{
    let bytes = input.as_bytes();
    let mut lo: usize = 0;
    let mut hi: usize = bytes.len();
    assert(bytes@.subrange(0, hi as int) =~= bytes@);
    while lo < hi && (bytes[lo] == 32 || (bytes[lo] >= 9 && bytes[lo] <= 13))
        invariant
            lo <= hi <= bytes@.len(),
            hi == bytes@.len(),
            trimmed(bytes@) == trimmed(bytes@.subrange(lo as int, hi as int)),
        decreases hi - lo,
    {
        assert(bytes@.subrange(lo as int, hi as int).drop_first() =~= bytes@.subrange(lo + 1, hi as int));
        lo = lo + 1;
    }
    while hi > lo && (bytes[hi - 1] == 32 || (bytes[hi - 1] >= 9 && bytes[hi - 1] <= 13))
        invariant
            lo <= hi <= bytes@.len(),
            trimmed(bytes@) == trimmed(bytes@.subrange(lo as int, hi as int)),
            lo < hi ==> !is_space(bytes@[lo as int]),
        decreases hi - lo,
    {
        assert(bytes@.subrange(lo as int, hi as int).drop_last() =~= bytes@.subrange(lo as int, hi - 1));
        hi = hi - 1;
    }
    let ghost t = bytes@.subrange(lo as int, hi as int);
    assert(trimmed(t) == t);
    if hi - lo < 2 {
        return (0, 0);
    }
    let first = bytes[lo];
    let up = if first >= 97 && first <= 122 {
        first - 32
    } else {
        first
    };
    let rest: &[u8] = &bytes[lo + 1..hi];
    proof {
        assert(rest@ =~= t.drop_first());
    }
    let col = match read_unsigned(rest, 0) {
        Some(v) => v,
        None => 1,
    };
    proof {
        assert(rest@.subrange(0, rest@.len() as int) =~= rest@);
    }
    if up < 65 || (up - 65) as usize >= GRID_SIZE || col == 0 || col > GRID_SIZE {
        (0, 0)
    } else {
        ((up - 65) as usize, col - 1)
    }
}

/// A command typed at the two-player console.
#[derive(Clone, Copy, Debug, PartialEq, Eq, Structural)]
pub enum InputEvent {
    Attack { x: u8, y: u8 },
    Place { x: u8, y: u8, orientation: Orientation },
    Save,
    Load,
    Unknown,
}

/// The value of an unsigned decimal number, with at most one leading `+`, when it
/// fits in a `u8`.
pub open spec fn byte_value(s: Seq<u8>) -> Option<u8> {
    match unsigned_value(s) {
        Some(v) => if v <= 255 {
            Some(v as u8)
        } else {
            None
        },
        None => None,
    }
}

/// Index of the first comma at or after `from`, or the length when there is none.
pub open spec fn next_comma(s: Seq<u8>, from: int) -> int
    decreases s.len() - from,
{
    if from >= s.len() {
        s.len() as int
    } else if s[from] == 44 {
        from
    } else {
        next_comma(s, from + 1)
    }
}

/// The pieces of `s` between commas.
pub open spec fn split_commas(s: Seq<u8>, from: int) -> Seq<Seq<u8>>
    decreases s.len() - from,
{
    if from > s.len() {
        Seq::empty()
    } else {
        let c = next_comma(s, from);
        if c >= s.len() {
            seq![s.subrange(from, s.len() as int)]
        } else if c < from {
            Seq::empty()
        } else {
            seq![s.subrange(from, c)] + split_commas(s, c + 1)
        }
    }
}

/// Whether `s` starts with `prefix`.
pub open spec fn starts_with(s: Seq<u8>, prefix: Seq<u8>) -> bool {
    prefix.len() <= s.len() && s.subrange(0, prefix.len() as int) == prefix
}

/// The orientation a piece names: vertical for `V` in either case, else horizontal.
pub open spec fn orientation_of(p: Seq<u8>) -> Orientation {
    if p.len() == 1 && (p[0] == 86 || p[0] == 118) {
        Orientation::Vertical
    } else {
        Orientation::Horizontal
    }
}

/// The command a typed line names: `attack x,y`, `place x,y,o`, `save` or `load`,
/// around white space; anything else is unknown.
pub open spec fn event_of(line: Seq<u8>) -> InputEvent {
    let t = trimmed(line);
    let attack = seq![97u8, 116, 116, 97, 99, 107, 32];
    let place = seq![112u8, 108, 97, 99, 101, 32];
    let a = split_commas(t, 7);
    let p = split_commas(t, 6);
    if starts_with(t, attack) && a.len() == 2 && byte_value(a[0]).is_some() && byte_value(a[1]).is_some() {
        InputEvent::Attack { x: byte_value(a[0]).unwrap(), y: byte_value(a[1]).unwrap() }
    } else if starts_with(t, place) && p.len() == 3 && byte_value(p[0]).is_some() && byte_value(
        p[1],
    ).is_some() {
        InputEvent::Place {
            x: byte_value(p[0]).unwrap(),
            y: byte_value(p[1]).unwrap(),
            orientation: orientation_of(p[2]),
        }
    } else if t == seq![115u8, 97, 118, 101] {
        InputEvent::Save
    } else if t == seq![108u8, 111, 97, 100] {
        InputEvent::Load
    } else {
        InputEvent::Unknown
    }
}

/// The console of the two-player game.
#[derive(Clone, Copy)]
pub struct CliInterface;

impl CliInterface {
    pub fn new() -> CliInterface {
        CliInterface
    }

    /// The command that the typed `line` names.
    pub fn parse(&self, line: &str) -> (e: InputEvent)
        ensures
            e == event_of(line.spec_bytes()),
    {
        parse_event(line.as_bytes())
    }
}

/// Bounds of the text without white space at either end.
fn trim_bounds(b: &[u8]) -> (r: (usize, usize))
    ensures
        r.0 <= r.1 <= b@.len(),
        trimmed(b@) == b@.subrange(r.0 as int, r.1 as int),
{
    let mut lo: usize = 0;
    let mut hi: usize = b.len();
    assert(b@.subrange(0, hi as int) =~= b@);
    while lo < hi && (b[lo] == 32 || (b[lo] >= 9 && b[lo] <= 13))
        invariant
            lo <= hi <= b@.len(),
            hi == b@.len(),
            trimmed(b@) == trimmed(b@.subrange(lo as int, hi as int)),
        decreases hi - lo,
    {
        assert(b@.subrange(lo as int, hi as int).drop_first() =~= b@.subrange(lo + 1, hi as int));
        lo = lo + 1;
    }
    while hi > lo && (b[hi - 1] == 32 || (b[hi - 1] >= 9 && b[hi - 1] <= 13))
        invariant
            lo <= hi <= b@.len(),
            trimmed(b@) == trimmed(b@.subrange(lo as int, hi as int)),
            lo < hi ==> !is_space(b@[lo as int]),
        decreases hi - lo,
    {
        assert(b@.subrange(lo as int, hi as int).drop_last() =~= b@.subrange(lo as int, hi - 1));
        hi = hi - 1;
    }
    (lo, hi)
}

/// Index of the first comma of `t` at or after `from`, or its length.
fn find_comma(t: &[u8], from: usize) -> (c: usize)
    requires
        from <= t@.len(),
    ensures
        c == next_comma(t@, from as int),
    decreases t@.len() - from,
{
    if from >= t.len() {
        t.len()
    } else if t[from] == 44 {
        from
    } else {
        find_comma(t, from + 1)
    }
}

/// The value of the number in `t[from..to]`, when it fits in a `u8`.
fn read_byte(t: &[u8], from: usize, to: usize) -> (r: Option<u8>)
    requires
        from <= to <= t@.len(),
    ensures
        r == byte_value(t@.subrange(from as int, to as int)),
{
    let piece: &[u8] = &t[from..to];
    assert(piece@ =~= t@.subrange(from as int, to as int));
    assert(piece@.subrange(0, piece@.len() as int) =~= piece@);
    match read_unsigned(piece, 0) {
        Some(v) => if v <= 255 {
            Some(v as u8)
        } else {
            None
        },
        None => None,
    }
}

proof fn lemma_split_two(t: Seq<u8>, from: int)
    requires
        0 <= from <= t.len(),
    ensures
        ({
            let c = next_comma(t, from);
            let d = if c < t.len() { next_comma(t, c + 1) } else { t.len() as int };
            &&& from <= c <= t.len()
            &&& c < t.len() ==> c + 1 <= d <= t.len()
            &&& split_commas(t, from).len() >= 1
            &&& split_commas(t, from)[0] == t.subrange(from, c)
            &&& (split_commas(t, from).len() >= 2 <==> c < t.len())
            &&& c < t.len() ==> split_commas(t, from)[1] == t.subrange(c + 1, d)
                && (split_commas(t, from).len() >= 3 <==> d < t.len())
                && (split_commas(t, from).len() == 2 <==> d == t.len())
        }),
{
    lemma_next_comma(t, from);
    let c = next_comma(t, from);
    if c < t.len() {
        lemma_next_comma(t, c + 1);
        let d = next_comma(t, c + 1);
        let rest = split_commas(t, c + 1);
        lemma_split_nonempty(t, c + 1);
        if d < t.len() {
            lemma_next_comma(t, d + 1);
            lemma_split_nonempty(t, d + 1);
            assert(rest == seq![t.subrange(c + 1, d)] + split_commas(t, d + 1));
        } else {
            assert(rest == seq![t.subrange(c + 1, t.len() as int)]);
        }
        assert(split_commas(t, from) == seq![t.subrange(from, c)] + rest);
    }
}

proof fn lemma_split_nonempty(t: Seq<u8>, from: int)
    requires
        0 <= from <= t.len(),
    ensures
        split_commas(t, from).len() >= 1,
        split_commas(t, from)[0] == t.subrange(from, next_comma(t, from)),
{
    lemma_next_comma(t, from);
}

proof fn lemma_next_comma(t: Seq<u8>, from: int)
    requires
        0 <= from <= t.len(),
    ensures
        from <= next_comma(t, from) <= t.len(),
    decreases t.len() - from,
{
    if from < t.len() && t[from] != 44 {
        lemma_next_comma(t, from + 1);
    }
}

/// The third piece of a split that has one, and whether there is a fourth.
proof fn lemma_split_three(t: Seq<u8>, from: int)
    requires
        0 <= from <= t.len(),
        next_comma(t, from) < t.len(),
        next_comma(t, next_comma(t, from) + 1) < t.len(),
    ensures
        ({
            let c = next_comma(t, from);
            let d = next_comma(t, c + 1);
            let e = next_comma(t, d + 1);
            &&& d + 1 <= e <= t.len()
            &&& split_commas(t, from)[2] == t.subrange(d + 1, e)
            &&& (split_commas(t, from).len() == 3 <==> e == t.len())
        }),
{
    lemma_next_comma(t, from);
    let c = next_comma(t, from);
    lemma_next_comma(t, c + 1);
    let d = next_comma(t, c + 1);
    lemma_next_comma(t, d + 1);
    let e = next_comma(t, d + 1);
    let third = split_commas(t, d + 1);
    lemma_split_nonempty(t, d + 1);
    if e < t.len() {
        lemma_next_comma(t, e + 1);
        lemma_split_nonempty(t, e + 1);
        assert(third == seq![t.subrange(d + 1, e)] + split_commas(t, e + 1));
    } else {
        assert(third == seq![t.subrange(d + 1, t.len() as int)]);
    }
    let second = split_commas(t, c + 1);
    assert(second == seq![t.subrange(c + 1, d)] + third);
    assert(split_commas(t, from) == seq![t.subrange(from, c)] + second);
}

/// Whether `t[lo..hi]` spells `word`.
fn spells(t: &[u8], lo: usize, hi: usize, word: &[u8]) -> (r: bool)
    requires
        lo <= hi <= t@.len(),
    ensures
        r == (t@.subrange(lo as int, hi as int) == word@),
{
    if hi - lo != word.len() {
        return false;
    }
    let mut i: usize = 0;
    while i < word.len()
        invariant
            hi - lo == word@.len(),
            lo <= hi <= t@.len(),
            i <= word@.len(),
            forall|j: int| 0 <= j < i ==> t@[lo + j] == word@[j],
        decreases word@.len() - i,
    {
        if t[lo + i] != word[i] {
            assert(t@.subrange(lo as int, hi as int)[i as int] != word@[i as int]);
            return false;
        }
        i = i + 1;
    }
    assert(t@.subrange(lo as int, hi as int) =~= word@);
    true
}

/// The command that the bytes of a typed line name.
fn parse_event(b: &[u8]) -> (e: InputEvent)
    ensures
        e == event_of(b@),
{
    let (lo, hi) = trim_bounds(b);
    let t: &[u8] = &b[lo..hi];
    let ghost ts = trimmed(b@);
    assert(t@ =~= ts);
    let attack: [u8; 7] = [97, 116, 116, 97, 99, 107, 32];
    let place: [u8; 6] = [112, 108, 97, 99, 101, 32];
    assert(attack@ =~= seq![97u8, 116, 116, 97, 99, 107, 32]);
    assert(place@ =~= seq![112u8, 108, 97, 99, 101, 32]);
    if t.len() >= 7 && spells(t, 0, 7, &attack) {
        proof {
            lemma_split_two(ts, 7);
        }
        let c = find_comma(t, 7);
        if c < t.len() {
            let d = find_comma(t, c + 1);
            if d == t.len() {
                let x = read_byte(t, 7, c);
                let y = read_byte(t, c + 1, d);
                if x.is_some() && y.is_some() {
                    return InputEvent::Attack { x: x.unwrap(), y: y.unwrap() };
                }
            }
        }
    }
    if t.len() >= 6 && spells(t, 0, 6, &place) {
        proof {
            lemma_split_two(ts, 6);
        }
        let c = find_comma(t, 6);
        if c < t.len() {
            let d = find_comma(t, c + 1);
            if d < t.len() {
                proof {
                    lemma_split_three(ts, 6);
                }
                let e = find_comma(t, d + 1);
                if e == t.len() {
                    let x = read_byte(t, 6, c);
                    let y = read_byte(t, c + 1, d);
                    if x.is_some() && y.is_some() {
                        let orientation = if e - (d + 1) == 1 && (t[d + 1] == 86 || t[d + 1] == 118) {
                            Orientation::Vertical
                        } else {
                            Orientation::Horizontal
                        };
                        assert(orientation == orientation_of(ts.subrange(d + 1, e as int)));
                        return InputEvent::Place { x: x.unwrap(), y: y.unwrap(), orientation };
                    }
                }
            }
        }
    }
    let save: [u8; 4] = [115, 97, 118, 101];
    let load: [u8; 4] = [108, 111, 97, 100];
    assert(save@ =~= seq![115u8, 97, 118, 101]);
    assert(load@ =~= seq![108u8, 111, 97, 100]);
    assert(t@.subrange(0, t@.len() as int) =~= t@);
    if spells(t, 0, t.len(), &save) {
        return InputEvent::Save;
    }
    if spells(t, 0, t.len(), &load) {
        return InputEvent::Load;
    }
    InputEvent::Unknown
}

/// The cell that the typed move `input` names, or `default` when only white space
/// was typed.
pub fn parse_move_with_default(input: &str, default: (usize, usize)) -> (r: (usize, usize))
    ensures
        trimmed(input.spec_bytes()).len() == 0 ==> r == default,
        trimmed(input.spec_bytes()).len() > 0 ==> r == move_of(input.spec_bytes()),
{
    let (lo, hi) = trim_bounds(input.as_bytes());
    if lo == hi {
        return default;
    }
    parse_move(input)
}

/// One step of setting up the fleet from typed commands: a `place` command places
/// `ship` on player one's board there, if it fits; any other command places
/// nothing. Tells whether the ship was placed.
pub fn place_from_event(state: &mut GameState, ship: ShipType, ev: InputEvent) -> (placed: bool)
    requires
        old(state).wf(),
        old(state).board_p1.ships@.len() < 256,
    ensures
        final(state).wf(),
        final(state).board_p2 == old(state).board_p2,
        final(state).turn == old(state).turn,
        final(state).phase == old(state).phase,
        !placed ==> final(state).board_p1 == old(state).board_p1,
        placed <==> match ev {
            InputEvent::Place { x, y, orientation } => forall|i: int|
                0 <= i < ship_cells(x, y, ship.spec_len(), orientation).len() ==> #[trigger] free_cell(
                    old(state).board_p1,
                    ship_cells(x, y, ship.spec_len(), orientation)[i],
                ),
            _ => false,
        },
{
    match ev {
        InputEvent::Place { x, y, orientation } => {
            let ghost before = state.board_p1;
            let r = state.board_p1.place_ship(ship, x, y, orientation);
            proof {
                let cells = ship_cells(x, y, ship.spec_len(), orientation);
                if !(forall|i: int| 0 <= i < cells.len() ==> #[trigger] free_cell(before, cells[i])) {
                    let q = choose|q: int| 0 <= q < cells.len() && !free_cell(before, #[trigger] cells[q]);
                    crate::duel::lemma_first_bad(before, cells, q);
                }
            }
            r.is_ok()
        },
        _ => false,
    }
}

} // verus!
