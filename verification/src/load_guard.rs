use vstd::prelude::*;

verus! {

/// PDF whitespace: NUL, tab, line feed, form feed, carriage return, space.
pub open spec fn is_ws(b: u8) -> bool {
    b == 0 || b == 9 || b == 10 || b == 12 || b == 13 || b == 32
}

/// PDF delimiters: `( ) < > [ ] { } / %`.
pub open spec fn is_delim(b: u8) -> bool {
    b == 40 || b == 41 || b == 60 || b == 62 || b == 91 || b == 93 || b == 123 || b == 125 || b
        == 47 || b == 37
}

/// A byte that may stand in a name as it is.
pub open spec fn is_regular(b: u8) -> bool {
    !is_ws(b) && !is_delim(b)
}

pub open spec fn is_digit(b: u8) -> bool {
    48 <= b <= 57
}

pub open spec fn is_hex(b: u8) -> bool {
    is_digit(b) || (65 <= b <= 70) || (97 <= b <= 102)
}

pub open spec fn hex_val(b: u8) -> int {
    if is_digit(b) {
        b - 48
    } else if 65 <= b <= 70 {
        b - 55
    } else {
        b - 87
    }
}

/// Whether `kw` stands in `data` at position `i`.
pub open spec fn bytes_at(data: Seq<u8>, i: int, kw: Seq<u8>) -> bool {
    0 <= i && i + kw.len() <= data.len() && data.subrange(i, i + kw.len()) == kw
}

/// A `#hh` escape of a name starts at `p`.
pub open spec fn name_escape_at(data: Seq<u8>, p: int) -> bool {
    0 <= p && p + 2 < data.len() && data[p] == 35 && is_hex(data[p + 1]) && is_hex(data[p + 2])
}

/// A plain name byte stands at `p`.
pub open spec fn name_char_at(data: Seq<u8>, p: int) -> bool {
    0 <= p < data.len() && data[p] != 35 && is_regular(data[p])
}

/// Whether the name whose bytes start at `p` (just after its `/`)
/// decodes to `t[m..]`, escapes resolved, and ends there.
pub open spec fn name_is(data: Seq<u8>, p: int, t: Seq<u8>, m: int) -> bool
    decreases t.len() - m,
{
    if m >= t.len() {
        !name_escape_at(data, p) && !name_char_at(data, p)
    } else if name_escape_at(data, p) {
        hex_val(data[p + 1]) * 16 + hex_val(data[p + 2]) == t[m] && name_is(data, p + 3, t, m + 1)
    } else if name_char_at(data, p) {
        data[p] == t[m] && name_is(data, p + 1, t, m + 1)
    } else {
        false
    }
}

/// Position just after the name whose bytes start at `p`.
pub open spec fn name_end(data: Seq<u8>, p: int) -> int
    decreases data.len() - p,
{
    if name_escape_at(data, p) {
        name_end(data, p + 3)
    } else if name_char_at(data, p) {
        name_end(data, p + 1)
    } else {
        p
    }
}

/// Position after the whitespace and comments from `p` (inside a comment
/// when `in_comment`).
pub open spec fn skip_space(data: Seq<u8>, p: int, in_comment: bool) -> int
    decreases data.len() - p,
{
    if p < 0 || p >= data.len() {
        p
    } else if in_comment {
        if data[p] == 10 || data[p] == 13 {
            skip_space(data, p + 1, false)
        } else {
            skip_space(data, p + 1, true)
        }
    } else if is_ws(data[p]) {
        skip_space(data, p + 1, false)
    } else if data[p] == 37 {
        skip_space(data, p + 1, true)
    } else {
        p
    }
}

/// Position after the run of decimal digits from `p`.
pub open spec fn digit_end(data: Seq<u8>, p: int) -> int
    decreases data.len() - p,
{
    if 0 <= p < data.len() && is_digit(data[p]) {
        digit_end(data, p + 1)
    } else {
        p
    }
}

/// The number written by the digits `data[s..e]`.
pub open spec fn digits_value(data: Seq<u8>, s: int, e: int) -> int
    decreases e - s,
{
    if e <= s {
        0
    } else {
        digits_value(data, s, e - 1) * 10 + (data[e - 1] - 48)
    }
}

/// How many decimal digits stand just before position `i`.
pub open spec fn run_before(data: Seq<u8>, i: int) -> int
    decreases i,
{
    if i <= 0 || i > data.len() || !is_digit(data[i - 1]) {
        0
    } else {
        run_before(data, i - 1) + 1
    }
}

/// Deepest nesting of arrays and dictionaries allowed in an object.
pub open spec fn max_nesting() -> int {
    32
}

/// Reading a container from `i` on, in `mode` (0: structure, 1: inside a
/// literal string `k` parentheses deep, 2: inside a hexadecimal string,
/// 3: inside a comment), `depth` containers deep: the nesting never
/// passes `max_nesting()` before the outermost container closes.
pub open spec fn nesting_ok(data: Seq<u8>, i: int, mode: int, k: int, depth: int) -> bool
    decreases data.len() + 1 - i,
{
    if i < 0 || i >= data.len() {
        true
    } else {
        let b = data[i];
        if mode == 1 {
            if b == 92 {
                nesting_ok(data, i + 2, 1, k, depth)
            } else if b == 40 {
                nesting_ok(data, i + 1, 1, k + 1, depth)
            } else if b == 41 {
                if k <= 1 {
                    nesting_ok(data, i + 1, 0, 0, depth)
                } else {
                    nesting_ok(data, i + 1, 1, k - 1, depth)
                }
            } else {
                nesting_ok(data, i + 1, 1, k, depth)
            }
        } else if mode == 2 {
            if b == 62 {
                nesting_ok(data, i + 1, 0, 0, depth)
            } else {
                nesting_ok(data, i + 1, 2, 0, depth)
            }
        } else if mode == 3 {
            if b == 10 || b == 13 {
                nesting_ok(data, i + 1, 0, 0, depth)
            } else {
                nesting_ok(data, i + 1, 3, 0, depth)
            }
        } else {
            let double = i + 1 < data.len() && data[i + 1] == b;
            if b == 91 || (b == 60 && double) {
                if depth + 1 > max_nesting() {
                    false
                } else {
                    nesting_ok(data, if b == 91 { i + 1 } else { i + 2 }, 0, 0, depth + 1)
                }
            } else if b == 93 || (b == 62 && double) {
                if depth <= 1 {
                    true
                } else {
                    nesting_ok(data, if b == 93 { i + 1 } else { i + 2 }, 0, 0, depth - 1)
                }
            } else if b == 60 {
                nesting_ok(data, i + 1, 2, 0, depth)
            } else if b == 40 {
                nesting_ok(data, i + 1, 1, 1, depth)
            } else if b == 37 {
                nesting_ok(data, i + 1, 3, 0, depth)
            } else {
                nesting_ok(data, i + 1, 0, 0, depth)
            }
        }
    }
}

/// The object read from `p` (after whitespace and comments) nests at
/// most `max_nesting()` deep.
pub open spec fn body_ok(data: Seq<u8>, p: int) -> bool {
    let q = skip_space(data, p, false);
    (0 <= q < data.len() && (data[q] == 91 || (data[q] == 60 && q + 1 < data.len() && data[q + 1]
        == 60))) ==> nesting_ok(data, q, 0, 0, 0)
}

pub open spec fn kw_obj() -> Seq<u8> {
    seq![111u8, 98, 106]
}

pub open spec fn kw_trailer() -> Seq<u8> {
    seq![116u8, 114, 97, 105, 108, 101, 114]
}


pub open spec fn name_columns() -> Seq<u8> {
    seq![67u8, 111, 108, 117, 109, 110, 115]
}

pub open spec fn name_colors() -> Seq<u8> {
    seq![67u8, 111, 108, 111, 114, 115]
}

pub open spec fn name_bpc() -> Seq<u8> {
    seq![66u8, 105, 116, 115, 80, 101, 114, 67, 111, 109, 112, 111, 110, 101, 110, 116]
}

pub open spec fn name_w() -> Seq<u8> {
    seq![87u8]
}

/// A key `/name` at `i` whose value is a non-negative integer has a value
/// of at most `bound`.
pub open spec fn number_after_ok(data: Seq<u8>, i: int, name: Seq<u8>, bound: int) -> bool {
    let a = skip_space(data, name_end(data, i + 1), false);
    let neg = 0 <= a < data.len() && data[a] == 45;
    let s = if 0 <= a < data.len() && (data[a] == 43 || data[a] == 45) { a + 1 } else { a };
    let e = digit_end(data, s);
    (0 <= i < data.len() && data[i] == 47 && name_is(data, i + 1, name, 0) && e > s && !neg) ==> (e
        - s <= 10 && digits_value(data, s, e) <= bound)
}

/// The elements of an array read from `p` on, the `idx`-th next, with
/// `zero` telling whether the first elements (up to three) read so far
/// are all zero: every non-negative integer element is at most 255, and
/// the array does not start with three zeros.
pub open spec fn w_items_ok(data: Seq<u8>, p: int, idx: int, zero: bool) -> bool
    decreases data.len() - p,
{
    let q = skip_space(data, p, false);
    if p < 0 || q < p || q >= data.len() {
        true
    } else {
        let b = data[q];
        if b == 93 {
            !(idx >= 3 && zero)
        } else if b == 43 || b == 45 || is_digit(b) {
            let s = if b == 43 || b == 45 { q + 1 } else { q };
            let e = digit_end(data, s);
            let v = digits_value(data, s, e);
            if e <= s || e > data.len() {
                true
            } else {
                (b == 45 || (e - s <= 10 && v <= 255)) && w_items_ok(
                    data,
                    e,
                    idx + 1,
                    zero && (idx >= 3 || (e - s <= 10 && v == 0)),
                )
            }
        } else {
            true
        }
    }
}

/// A key `/W` at `i` whose value is an array: see `w_items_ok`.
pub open spec fn w_array_ok(data: Seq<u8>, i: int) -> bool {
    let a = skip_space(data, name_end(data, i + 1), false);
    (0 <= i < data.len() && data[i] == 47 && name_is(data, i + 1, name_w(), 0) && 0 <= a < data.len()
        && data[a] == 91) ==> w_items_ok(data, a + 1, 0, true)
}

pub open spec fn name_index() -> Seq<u8> {
    seq![73u8, 110, 100, 101, 120]
}

/// No element of an array read from `p` on is a negative integer.
pub open spec fn nonneg_items_ok(data: Seq<u8>, p: int) -> bool
    decreases data.len() - p,
{
    let q = skip_space(data, p, false);
    if p < 0 || q < p || q >= data.len() {
        true
    } else {
        let b = data[q];
        if b == 45 {
            digit_end(data, q + 1) <= q + 1
        } else if b == 43 || is_digit(b) {
            let s = if b == 43 { q + 1 } else { q };
            let e = digit_end(data, s);
            if e <= s || e > data.len() {
                true
            } else {
                nonneg_items_ok(data, e)
            }
        } else {
            true
        }
    }
}

/// A key `/Index` at `i` whose value is an array: see `nonneg_items_ok`.
pub open spec fn index_array_ok(data: Seq<u8>, i: int) -> bool {
    let a = skip_space(data, name_end(data, i + 1), false);
    (0 <= i < data.len() && data[i] == 47 && name_is(data, i + 1, name_index(), 0) && 0 <= a
        < data.len() && data[a] == 91) ==> nonneg_items_ok(data, a + 1)
}

pub open spec fn name_prev() -> Seq<u8> {
    seq![80u8, 114, 101, 118]
}

pub open spec fn name_xrefstm() -> Seq<u8> {
    seq![88u8, 82, 101, 102, 83, 116, 109]
}

pub open spec fn name_objstm() -> Seq<u8> {
    seq![79u8, 98, 106, 83, 116, 109]
}

pub open spec fn name_length() -> Seq<u8> {
    seq![76u8, 101, 110, 103, 116, 104]
}

/// A `/Length` key at `i` whose value could be an indirect reference:
/// two numbers in a row.
pub open spec fn length_ref_at(data: Seq<u8>, i: int) -> bool {
    let a = skip_space(data, name_end(data, i + 1), false);
    let b = digit_end(data, a);
    let c = skip_space(data, b, false);
    name_is(data, i + 1, name_length(), 0) && b > a && 0 <= c < data.len() && is_digit(data[c])
}

/// What must hold at position `i` of a PDF that is loaded.
pub open spec fn position_ok(data: Seq<u8>, i: int) -> bool {
    &&& run_before(data, i + 1) <= 10
    &&& (is_digit(data[i]) && (i + 1 >= data.len() || !is_digit(data[i + 1]))) ==> digits_value(
        data,
        i + 1 - run_before(data, i + 1),
        i + 1,
    ) < 0x8000_0000
    &&& data[i] == 47 ==> {
        &&& !name_is(data, i + 1, name_prev(), 0)
        &&& !name_is(data, i + 1, name_xrefstm(), 0)
        &&& !name_is(data, i + 1, name_objstm(), 0)
        &&& !length_ref_at(data, i)
    }
    &&& number_after_ok(data, i, name_columns(), 65535)
    &&& number_after_ok(data, i, name_colors(), 64)
    &&& number_after_ok(data, i, name_bpc(), 32)
    &&& w_array_ok(data, i)
    &&& index_array_ok(data, i)
    &&& bytes_at(data, i, kw_obj()) ==> body_ok(data, i + 3)
    &&& bytes_at(data, i, kw_trailer()) ==> body_ok(data, i + 7)
}

/// The bytes of a PDF that this library hands to `lopdf` to parse: at
/// most 512 MiB; no run of more than ten digits, and no number of 2^31 or
/// more; no name `Prev`, `XRefStm` or `ObjStm` (no chained
/// cross-reference sections, no object streams); no `/Length` that could
/// be an indirect reference; small `Columns` (at most 65535), `Colors`
/// (64) and `BitsPerComponent` (32) values; no negative number in an
/// `Index` array; `W` arrays of fields of at
/// most 255 bytes that do not start with three zeros; and no object
/// nested more than `max_nesting()` deep.
pub open spec fn loadable(data: Seq<u8>) -> bool {
    data.len() <= 0x2000_0000 && forall|i: int| 0 <= i < data.len() ==> #[trigger] position_ok(data, i)
}

/// The bytes of `t`.
fn bytes_of(t: &[u8]) -> (r: Vec<u8>)
    ensures
        r@ == t@,
{
    let mut r: Vec<u8> = Vec::new();
    let mut i: usize = 0;
    while i < t.len()
        invariant
            i <= t.len(),
            r@ == t@.subrange(0, i as int),
        decreases t.len() - i,
    {
        r.push(t[i]);
        i = i + 1;
        assert(r@ =~= t@.subrange(0, i as int));
    }
    assert(t@.subrange(0, t@.len() as int) =~= t@);
    r
}

fn ws(b: u8) -> (r: bool)
    ensures
        r == is_ws(b),
{
    b == 0 || b == 9 || b == 10 || b == 12 || b == 13 || b == 32
}

fn regular(b: u8) -> (r: bool)
    ensures
        r == is_regular(b),
{
    !ws(b) && !(b == 40 || b == 41 || b == 60 || b == 62 || b == 91 || b == 93 || b == 123 || b
        == 125 || b == 47 || b == 37)
}

fn digit(b: u8) -> (r: bool)
    ensures
        r == is_digit(b),
{
    48 <= b && b <= 57
}

fn hex(b: u8) -> (r: bool)
    ensures
        r == is_hex(b),
{
    digit(b) || (65 <= b && b <= 70) || (97 <= b && b <= 102)
}

fn hexv(b: u8) -> (r: u8)
    requires
        is_hex(b),
    ensures
        r == hex_val(b),
{
    if digit(b) {
        b - 48
    } else if 65 <= b && b <= 70 {
        b - 55
    } else {
        b - 87
    }
}

fn escape_at(data: &[u8], p: usize) -> (r: bool)
    requires
        data@.len() <= 0x8000_0000,
        p <= data@.len() + 16,
    ensures
        r == name_escape_at(data@, p as int),
{
    p + 2 < data.len() && data[p] == 35 && hex(data[p + 1]) && hex(data[p + 2])
}

fn char_at(data: &[u8], p: usize) -> (r: bool)
    ensures
        r == name_char_at(data@, p as int),
{
    p < data.len() && data[p] != 35 && regular(data[p])
}

fn bytes_at_check(data: &[u8], i: usize, kw: &Vec<u8>) -> (r: bool)
    requires
        data@.len() <= 0x8000_0000,
        kw@.len() <= 16,
        i <= data@.len(),
    ensures
        r == bytes_at(data@, i as int, kw@),
{
    if i + kw.len() > data.len() {
        return false;
    }
    let mut m: usize = 0;
    while m < kw.len()
        invariant
            m <= kw@.len(),
            i <= data@.len(),
            data@.len() <= 0x8000_0000,
            i + kw@.len() <= data@.len(),
            forall|x: int| 0 <= x < m ==> data@[i + x] == kw@[x],
        decreases kw.len() - m,
    {
        if data[i + m] != kw[m] {
            assert(data@.subrange(i as int, i + kw@.len())[m as int] != kw@[m as int]);
            return false;
        }
        m = m + 1;
    }
    assert(data@.subrange(i as int, i + kw@.len()) =~= kw@);
    true
}

fn name_is_check(data: &[u8], p0: usize, t: &Vec<u8>) -> (r: bool)
    requires
        data@.len() <= 0x8000_0000,
        t@.len() <= 16,
        p0 <= data@.len(),
    ensures
        r == name_is(data@, p0 as int, t@, 0),
{
    let mut p = p0;
    let mut m: usize = 0;
    while m < t.len()
        invariant
            m <= t@.len(),
            t@.len() <= 16,
            p <= data@.len(),
            data@.len() <= 0x8000_0000,
            name_is(data@, p as int, t@, m as int) == name_is(data@, p0 as int, t@, 0),
        decreases t.len() - m,
    {
        if escape_at(data, p) {
            let v = hexv(data[p + 1]) as u16 * 16 + hexv(data[p + 2]) as u16;
            if v != t[m] as u16 {
                return false;
            }
            p = p + 3;
        } else if char_at(data, p) {
            if data[p] != t[m] {
                return false;
            }
            p = p + 1;
        } else {
            return false;
        }
        m = m + 1;
    }
    !escape_at(data, p) && !char_at(data, p)
}

fn name_end_check(data: &[u8], p0: usize) -> (r: usize)
    requires
        data@.len() <= 0x8000_0000,
        p0 <= data@.len(),
    ensures
        r == name_end(data@, p0 as int),
        r <= data@.len(),
{
    let mut p = p0;
    while p < data.len()
        invariant
            p <= data@.len(),
            data@.len() <= 0x8000_0000,
            name_end(data@, p as int) == name_end(data@, p0 as int),
        decreases data.len() - p,
    {
        if escape_at(data, p) {
            p = p + 3;
        } else if char_at(data, p) {
            p = p + 1;
        } else {
            return p;
        }
    }
    p
}

fn skip_space_check(data: &[u8], p0: usize) -> (r: usize)
    requires
        p0 <= data@.len(),
    ensures
        r == skip_space(data@, p0 as int, false),
        p0 <= r <= data@.len(),
{
    let mut p = p0;
    let mut comment = false;
    while p < data.len()
        invariant
            p0 <= p <= data@.len(),
            skip_space(data@, p as int, comment) == skip_space(data@, p0 as int, false),
        decreases data.len() - p,
    {
        let b = data[p];
        if comment {
            if b == 10 || b == 13 {
                comment = false;
            }
        } else if ws(b) {
        } else if b == 37 {
            comment = true;
        } else {
            return p;
        }
        p = p + 1;
    }
    p
}

fn digit_end_check(data: &[u8], p0: usize) -> (r: usize)
    requires
        p0 <= data@.len(),
    ensures
        r == digit_end(data@, p0 as int),
        p0 <= r <= data@.len(),
{
    let mut p = p0;
    while p < data.len() && digit(data[p])
        invariant
            p0 <= p <= data@.len(),
            digit_end(data@, p as int) == digit_end(data@, p0 as int),
        decreases data.len() - p,
    {
        p = p + 1;
    }
    p
}

fn digits_value_check(data: &[u8], s: usize, e: usize) -> (r: u64)
    requires
        s <= e <= data@.len(),
        e - s <= 12,
        forall|x: int| s <= x < e ==> is_digit(#[trigger] data@[x]),
    ensures
        r == digits_value(data@, s as int, e as int),
{
    let mut v: u64 = 0;
    let mut p = s;
    while p < e
        invariant
            s <= p <= e,
            e <= data@.len(),
            e - s <= 12,
            forall|x: int| s <= x < e ==> is_digit(#[trigger] data@[x]),
            v == digits_value(data@, s as int, p as int),
            v < pow10((p - s) as nat),
        decreases e - p,
    {
        let d = data[p] - 48;
        proof {
            assert(v * 10 + d < pow10((p - s) as nat) * 10) by (nonlinear_arith)
                requires
                    v < pow10((p - s) as nat),
                    d < 10,
            ;
            assert(pow10((p + 1 - s) as nat) == pow10((p - s) as nat) * 10);
            lemma_pow10_bound((p + 1 - s) as nat);
        }
        v = v * 10 + d as u64;
        p = p + 1;
    }
    v
}

/// Ten to the power `n`.
pub open spec fn pow10(n: nat) -> int
    decreases n,
{
    if n == 0 {
        1
    } else {
        pow10((n - 1) as nat) * 10
    }
}

proof fn lemma_pow10_bound(n: nat)
    requires
        n <= 12,
    ensures
        pow10(n) <= 1_000_000_000_000,
        pow10(n) >= 1,
    decreases n,
{
    if n > 0 {
        lemma_pow10_bound((n - 1) as nat);
    }
    reveal_with_fuel(pow10, 13);
}

/// Digits before `e`, back to `s`, are all digits when `e` is the end of
/// the run from `s`.
proof fn lemma_digit_run(data: Seq<u8>, s: int, p: int)
    requires
        0 <= s <= p <= digit_end(data, s),
        p <= data.len(),
    ensures
        digit_end(data, p) == digit_end(data, s),
        forall|x: int| s <= x < p ==> is_digit(#[trigger] data[x]),
    decreases p - s,
{
    if p > s {
        assert(is_digit(data[s]));
        lemma_digit_run(data, s + 1, p);
    }
}

fn length_ref_check(data: &[u8], i: usize, length: &Vec<u8>) -> (r: bool)
    requires
        data@.len() <= 0x8000_0000,
        i < data@.len(),
        length@ == name_length(),
    ensures
        r == length_ref_at(data@, i as int),
{
    if !name_is_check(data, i + 1, length) {
        return false;
    }
    let a = skip_space_check(data, name_end_check(data, i + 1));
    let b = digit_end_check(data, a);
    let c = skip_space_check(data, b);
    b > a && c < data.len() && digit(data[c])
}

fn nesting_check(data: &[u8], q: usize) -> (r: bool)
    requires
        data@.len() <= 0x8000_0000,
        q <= data@.len(),
    ensures
        r == nesting_ok(data@, q as int, 0, 0, 0),
{
    let mut i = q;
    let mut mode: u8 = 0;
    let mut k: usize = 0;
    let mut depth: usize = 0;
    while i < data.len()
        invariant
            data@.len() <= 0x8000_0000,
            i <= data@.len() + 1,
            k <= i,
            depth <= 32,
            mode <= 3,
            mode != 1 ==> k == 0,
            nesting_ok(data@, i as int, mode as int, k as int, depth as int) == nesting_ok(
                data@,
                q as int,
                0,
                0,
                0,
            ),
        decreases data.len() + 2 - i,
    {
        let b = data[i];
        if mode == 1 {
            if b == 92 {
                i = i + 2;
            } else if b == 40 {
                k = k + 1;
                i = i + 1;
            } else if b == 41 {
                if k <= 1 {
                    mode = 0;
                    k = 0;
                } else {
                    k = k - 1;
                }
                i = i + 1;
            } else {
                i = i + 1;
            }
        } else if mode == 2 {
            if b == 62 {
                mode = 0;
            }
            i = i + 1;
        } else if mode == 3 {
            if b == 10 || b == 13 {
                mode = 0;
            }
            i = i + 1;
        } else {
            let double = i + 1 < data.len() && data[i + 1] == b;
            if b == 91 || (b == 60 && double) {
                if depth + 1 > 32 {
                    return false;
                }
                depth = depth + 1;
                i = if b == 91 { i + 1 } else { i + 2 };
            } else if b == 93 || (b == 62 && double) {
                if depth <= 1 {
                    return true;
                }
                depth = depth - 1;
                i = if b == 93 { i + 1 } else { i + 2 };
            } else if b == 60 {
                mode = 2;
                i = i + 1;
            } else if b == 40 {
                mode = 1;
                k = 1;
                i = i + 1;
            } else if b == 37 {
                mode = 3;
                i = i + 1;
            } else {
                i = i + 1;
            }
        }
    }
    true
}

fn body_check(data: &[u8], p: usize) -> (r: bool)
    requires
        data@.len() <= 0x8000_0000,
        p <= data@.len(),
    ensures
        r == body_ok(data@, p as int),
{
    let q = skip_space_check(data, p);
    if q < data.len() && (data[q] == 91 || (data[q] == 60 && q + 1 < data.len() && data[q + 1] == 60)) {
        nesting_check(data, q)
    } else {
        true
    }
}

fn number_after_check(data: &[u8], i: usize, name: &Vec<u8>, bound: u64) -> (r: bool)
    requires
        data@.len() <= 0x8000_0000,
        i < data@.len(),
        name@.len() <= 16,
    ensures
        r == number_after_ok(data@, i as int, name@, bound as int),
{
    if data[i] != 47 || !name_is_check(data, i + 1, name) {
        return true;
    }
    let a = skip_space_check(data, name_end_check(data, i + 1));
    let neg = a < data.len() && data[a] == 45;
    let s = if a < data.len() && (data[a] == 43 || data[a] == 45) { a + 1 } else { a };
    let e = digit_end_check(data, s);
    if e == s || neg {
        return true;
    }
    if e - s > 10 {
        return false;
    }
    proof {
        lemma_digit_run(data@, s as int, e as int);
    }
    digits_value_check(data, s, e) <= bound
}

fn w_items_check(data: &[u8], p0: usize) -> (r: bool)
    requires
        data@.len() <= 0x8000_0000,
        p0 <= data@.len(),
    ensures
        r == w_items_ok(data@, p0 as int, 0, true),
{
    let mut p = p0;
    let mut idx: usize = 0;
    let mut zero = true;
    loop
        invariant
            data@.len() <= 0x8000_0000,
            p <= data@.len(),
            idx <= p,
            w_items_ok(data@, p as int, idx as int, zero) == w_items_ok(data@, p0 as int, 0, true),
        decreases data@.len() - p,
    {
        let q = skip_space_check(data, p);
        if q >= data.len() {
            return true;
        }
        let b = data[q];
        if b == 93 {
            return !(idx >= 3 && zero);
        } else if b == 43 || b == 45 || digit(b) {
            let s = if b == 43 || b == 45 { q + 1 } else { q };
            let e = digit_end_check(data, s);
            if e == s {
                return true;
            }
            let short = e - s <= 10;
            let v: u64 = if short {
                proof {
                    lemma_digit_run(data@, s as int, e as int);
                }
                digits_value_check(data, s, e)
            } else {
                0
            };
            if b != 45 && !(short && v <= 255) {
                return false;
            }
            zero = zero && (idx >= 3 || (short && v == 0));
            idx = idx + 1;
            p = e;
        } else {
            return true;
        }
    }
}

fn w_array_check(data: &[u8], i: usize, w: &Vec<u8>) -> (r: bool)
    requires
        data@.len() <= 0x8000_0000,
        i < data@.len(),
        w@ == name_w(),
    ensures
        r == w_array_ok(data@, i as int),
{
    if data[i] != 47 || !name_is_check(data, i + 1, w) {
        return true;
    }
    let a = skip_space_check(data, name_end_check(data, i + 1));
    if a < data.len() && data[a] == 91 {
        w_items_check(data, a + 1)
    } else {
        true
    }
}

fn nonneg_items_check(data: &[u8], p0: usize) -> (r: bool)
    requires
        data@.len() <= 0x8000_0000,
        p0 <= data@.len(),
    ensures
        r == nonneg_items_ok(data@, p0 as int),
{
    let mut p = p0;
    loop
        invariant
            data@.len() <= 0x8000_0000,
            p <= data@.len(),
            nonneg_items_ok(data@, p as int) == nonneg_items_ok(data@, p0 as int),
        decreases data@.len() - p,
    {
        let q = skip_space_check(data, p);
        if q >= data.len() {
            return true;
        }
        let b = data[q];
        if b == 45 {
            return digit_end_check(data, q + 1) == q + 1;
        } else if b == 43 || digit(b) {
            let s = if b == 43 { q + 1 } else { q };
            let e = digit_end_check(data, s);
            if e == s {
                return true;
            }
            p = e;
        } else {
            return true;
        }
    }
}

fn index_array_check(data: &[u8], i: usize, index: &Vec<u8>) -> (r: bool)
    requires
        data@.len() <= 0x8000_0000,
        i < data@.len(),
        index@ == name_index(),
    ensures
        r == index_array_ok(data@, i as int),
{
    if data[i] != 47 || !name_is_check(data, i + 1, index) {
        return true;
    }
    let a = skip_space_check(data, name_end_check(data, i + 1));
    if a < data.len() && data[a] == 91 {
        nonneg_items_check(data, a + 1)
    } else {
        true
    }
}

/// Whether `lopdf` may be given these bytes to parse (see `loadable`).
pub fn loadable_check(data: &[u8]) -> (r: bool)
    ensures
        r == loadable(data@),
{
    if data.len() > 0x2000_0000 {
        return false;
    }
    let obj = bytes_of(&[111u8, 98, 106]);
    let trailer = bytes_of(&[116u8, 114, 97, 105, 108, 101, 114]);
    let prev = bytes_of(&[80u8, 114, 101, 118]);
    let xrefstm = bytes_of(&[88u8, 82, 101, 102, 83, 116, 109]);
    let objstm = bytes_of(&[79u8, 98, 106, 83, 116, 109]);
    let length = bytes_of(&[76u8, 101, 110, 103, 116, 104]);
    let columns = bytes_of(&[67u8, 111, 108, 117, 109, 110, 115]);
    let colors = bytes_of(&[67u8, 111, 108, 111, 114, 115]);
    let bpc = bytes_of(&[66u8, 105, 116, 115, 80, 101, 114, 67, 111, 109, 112, 111, 110, 101, 110, 116]);
    let w = bytes_of(&[87u8]);
    let index = bytes_of(&[73u8, 110, 100, 101, 120]);
    proof {
        assert(obj@ =~= kw_obj());
        assert(trailer@ =~= kw_trailer());
        assert(prev@ =~= name_prev());
        assert(xrefstm@ =~= name_xrefstm());
        assert(objstm@ =~= name_objstm());
        assert(length@ =~= name_length());
        assert(columns@ =~= name_columns());
        assert(colors@ =~= name_colors());
        assert(bpc@ =~= name_bpc());
        assert(w@ =~= name_w());
        assert(index@ =~= name_index());
    }
    let mut run: usize = 0;
    let mut val: u64 = 0;
    let mut i: usize = 0;
    while i < data.len()
        invariant
            data@.len() <= 0x2000_0000,
            i <= data@.len(),
            run == run_before(data@, i as int),
            run <= i,
            run <= 10,
            val == digits_value(data@, i - run, i as int),
            val < pow10(run as nat),
            obj@ == kw_obj(),
            trailer@ == kw_trailer(),
            prev@ == name_prev(),
            xrefstm@ == name_xrefstm(),
            objstm@ == name_objstm(),
            length@ == name_length(),
            columns@ == name_columns(),
            colors@ == name_colors(),
            bpc@ == name_bpc(),
            w@ == name_w(),
            index@ == name_index(),
            forall|j: int| 0 <= j < i ==> #[trigger] position_ok(data@, j),
        decreases data.len() - i,
    {
        proof {
            lemma_pow10_bound(run as nat);
        }
        if digit(data[i]) {
            let d = (data[i] - 48) as u64;
            proof {
                assert(val * 10 + d < pow10(run as nat) * 10) by (nonlinear_arith)
                    requires
                        val < pow10(run as nat),
                        d < 10,
                ;
                assert(pow10((run + 1) as nat) == pow10(run as nat) * 10);
                assert(digits_value(data@, i - run, i + 1) == digits_value(data@, i - run, i as int)
                    * 10 + (data@[i as int] - 48));
            }
            val = val * 10 + d;
            run = run + 1;
        } else {
            val = 0;
            run = 0;
        }
        assert(run == run_before(data@, i + 1));
        let run_ends = run > 0 && (i + 1 >= data.len() || !digit(data[i + 1]));
        let ok = run <= 10 && (!run_ends || val < 0x8000_0000) && (data[i] != 47 || (
        !name_is_check(data, i + 1, &prev) && !name_is_check(data, i + 1, &xrefstm)
            && !name_is_check(data, i + 1, &objstm) && !length_ref_check(data, i, &length)))
            && number_after_check(data, i, &columns, 65535) && number_after_check(
            data,
            i,
            &colors,
            64,
        ) && number_after_check(data, i, &bpc, 32) && w_array_check(data, i, &w) && index_array_check(data, i, &index) && (
        !bytes_at_check(data, i, &obj) || body_check(data, i + 3)) && (!bytes_at_check(
            data,
            i,
            &trailer,
        ) || body_check(data, i + 7));
        if !ok {
            assert(!position_ok(data@, i as int));
            return false;
        }
        i = i + 1;
    }
    true
}


/// The key `/Columns` followed by one space.
pub open spec fn columns_key() -> Seq<u8> {
    seq![47u8, 67, 111, 108, 117, 109, 110, 115, 32]
}

/// A run of digits from `s` to `e` ends at `e`.
proof fn lemma_digit_end_at(data: Seq<u8>, s: int, e: int)
    requires
        0 <= s <= e <= data.len(),
        forall|k: int| s <= k < e ==> is_digit(#[trigger] data[k]),
        e == data.len() || !is_digit(data[e]),
    ensures
        digit_end(data, s) == e,
    decreases e - s,
{
    if s < e {
        lemma_digit_end_at(data, s + 1, e);
    }
}

/// Just after `k` digits that follow a non-digit, `k` digits stand before.
proof fn lemma_run_before_at(data: Seq<u8>, s: int, k: int)
    requires
        0 < s <= k <= data.len(),
        !is_digit(data[s - 1]),
        forall|x: int| s <= x < k ==> is_digit(#[trigger] data[x]),
    ensures
        run_before(data, k) == k - s,
    decreases k - s,
{
    if k > s {
        lemma_run_before_at(data, s, k - 1);
        assert(is_digit(data[k - 1]));
    }
}

/// A `/Columns` key whose value is a number of at most 65535 never makes
/// bytes unloadable: from the key to the end of the number, every
/// position passes the check.
pub proof fn law_small_columns_loadable(data: Seq<u8>, i: int, e: int)
    requires
        0 <= i,
        i + 9 < e <= data.len(),
        e <= i + 14,
        data.subrange(i, i + 9) == columns_key(),
        forall|k: int| i + 9 <= k < e ==> is_digit(#[trigger] data[k]),
        e == data.len() || !is_digit(data[e]),
        digits_value(data, i + 9, e) <= 65535,
    ensures
        forall|j: int| i <= j < e ==> #[trigger] position_ok(data, j),
{
    let s = i + 9;
    assert forall|x: int| 0 <= x < 9 implies data[i + x] == #[trigger] columns_key()[x] by {
        assert(data.subrange(i, i + 9)[x] == data[i + x]);
    }
    lemma_digit_end_at(data, s, e);
    assert(!is_digit(data[s - 1])) by {
        assert(data[i + 8] == columns_key()[8]);
    }
    reveal_with_fuel(name_is, 10);
    reveal_with_fuel(name_end, 10);
    reveal_with_fuel(skip_space, 3);
    assert(name_end(data, i + 1) == i + 8);
    assert(skip_space(data, i + 8, false) == s);
    assert forall|j: int| i <= j < e implies #[trigger] position_ok(data, j) by {
        if j < s {
            assert(run_before(data, j + 1) == 0);
            assert(!bytes_at(data, j, kw_obj())) by {
                if bytes_at(data, j, kw_obj()) {
                    assert(data.subrange(j, j + 3)[0] == data[j]);
                    assert(data.subrange(j, j + 3)[1] == data[j + 1]);
                }
            }
            assert(!bytes_at(data, j, kw_trailer())) by {
                if bytes_at(data, j, kw_trailer()) {
                    assert(data.subrange(j, j + 7)[0] == data[j]);
                }
            }
        } else {
            lemma_run_before_at(data, s, j + 1);
            assert(!bytes_at(data, j, kw_obj())) by {
                if bytes_at(data, j, kw_obj()) {
                    assert(data.subrange(j, j + 3)[0] == data[j]);
                }
            }
            assert(!bytes_at(data, j, kw_trailer())) by {
                if bytes_at(data, j, kw_trailer()) {
                    assert(data.subrange(j, j + 7)[0] == data[j]);
                }
            }
            if j + 1 < e {
                assert(is_digit(data[j + 1]));
            }
        }
    }
}

} // verus!
