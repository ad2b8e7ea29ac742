use std::collections::HashMap;
use vstd::prelude::*;

use crate::text::str_eq;

verus! {

broadcast use vstd::std_specs::hash::group_hash_axioms;

/// Glyph-width table of a font, as far as redaction needs it.
///
/// `W` is the type of a width (a number in text space units); the
/// table logic never looks inside a width, it only stores and returns it.
#[allow(inconsistent_fields)]
#[derive(Clone)]
pub enum FontMetrics<W> {
    /// A simple (one byte per glyph) font: widths for the codes
    /// `first, first + 1, ...`, and a width for every other code.
    Simple { first: u16, widths: Vec<W>, missing: W },
    /// A composite font: widths by CID, a default width, and whether the
    /// encoding is `Identity-H`/`Identity-V` (two bytes per glyph).
    Type0 { widths: HashMap<u16, W>, dw: W, identity: bool },
}

impl<W> FontMetrics<W> {
    /// The width that a glyph code has in this table.
    pub open spec fn spec_width(&self, code: u16) -> W {
        match self {
            FontMetrics::Simple { first, widths, missing } => {
                if code < *first || code - *first >= widths@.len() {
                    *missing
                } else {
                    widths@[code - *first]
                }
            },
            FontMetrics::Type0 { widths, dw, .. } => {
                if widths@.contains_key(code) {
                    widths@[code]
                } else {
                    *dw
                }
            },
        }
    }

    /// Whether glyph codes are read two bytes at a time.
    pub open spec fn spec_is_identity(&self) -> bool {
        match self {
            FontMetrics::Type0 { identity, .. } => *identity,
            _ => false,
        }
    }

    /// The width of glyph `code`.
    pub fn width(&self, code: u16) -> (r: W) where W: Copy
        ensures
            r == self.spec_width(code),
    {
        match self {
            FontMetrics::Simple { first, widths, missing } => {
                if code < *first {
                    return *missing;
                }
                let idx = (code - *first) as usize;
                if idx < widths.len() {
                    widths[idx]
                } else {
                    *missing
                }
            },
            FontMetrics::Type0 { widths, dw, .. } => {
                match widths.get(&code) {
                    Some(w) => *w,
                    None => *dw,
                }
            },
        }
    }

    /// Whether the font is a composite font with an identity encoding.
    pub fn is_identity(&self) -> (r: bool)
        ensures
            r == self.spec_is_identity(),
    {
        match self {
            FontMetrics::Type0 { identity, .. } => *identity,
            _ => false,
        }
    }

    /// Splits the bytes of a string operand into glyph codes.
    pub fn codes(&self, bytes: &[u8]) -> (r: Vec<u16>)
        ensures
            r@ == spec_codes(self.spec_is_identity(), bytes@),
    {
        glyph_codes(self.is_identity(), bytes)
    }
}

/// Glyph codes of a byte string: with `two_byte`, big-endian pairs of
/// bytes (a trailing odd byte is a code of its own); otherwise one code
/// per byte.
pub open spec fn spec_codes(two_byte: bool, bytes: Seq<u8>) -> Seq<u16> {
    if two_byte {
        Seq::new(
            ((bytes.len() + 1) / 2) as nat,
            |i: int|
                if 2 * i + 1 < bytes.len() {
                    (bytes[2 * i] as int * 256 + bytes[2 * i + 1] as int) as u16
                } else {
                    bytes[2 * i] as u16
                },
        )
    } else {
        Seq::new(bytes.len(), |i: int| bytes[i] as u16)
    }
}

/// Splits bytes into glyph codes, two bytes per code when `two_byte`.
pub fn glyph_codes(two_byte: bool, bytes: &[u8]) -> (r: Vec<u16>)
    ensures
        r@ == spec_codes(two_byte, bytes@),
{
    let mut out: Vec<u16> = Vec::new();
    if two_byte {
        let mut i: usize = 0;
        while i + 1 < bytes.len()
            invariant
                i % 2 == 0,
                i <= bytes.len(),
                out@.len() == i / 2,
                forall|k: int|
                    0 <= k < out@.len() ==> out@[k] == (bytes@[2 * k] as int * 256
                        + bytes@[2 * k + 1] as int) as u16,
            decreases bytes.len() - i,
        {
            let hi = bytes[i] as u16;
            let lo = bytes[i + 1] as u16;
            assert(hi * 256 + lo <= 65535) by (nonlinear_arith)
                requires
                    hi < 256,
                    lo < 256,
            ;
            let code: u16 = hi * 256 + lo;
            out.push(code);
            i = i + 2;
        }
        if i < bytes.len() {
            out.push(bytes[i] as u16);
        }
        assert(out@ =~= spec_codes(true, bytes@));
    } else {
        let mut i: usize = 0;
        while i < bytes.len()
            invariant
                i <= bytes.len(),
                out@.len() == i,
                forall|k: int| 0 <= k < i ==> out@[k] == bytes@[k] as u16,
            decreases bytes.len() - i,
        {
            out.push(bytes[i] as u16);
            i = i + 1;
        }
        assert(out@ =~= spec_codes(false, bytes@));
    }
    out
}


/// One element of a composite font's `W` array, as the width parser
/// reads it: a number (the code it names when read as an integer, and the
/// width it gives when read as a width), an array of widths (an element
/// that is not a number has no width), or anything else.
pub enum WidthItem<W> {
    Number(i64, W),
    List(Vec<Option<W>>),
    Other,
}

impl<W> WidthItem<W> {
    /// The widths of a `List` element, by position.
    pub open spec fn list_view(&self) -> Seq<Option<W>> {
        match self {
            WidthItem::List(v) => v@,
            _ => Seq::empty(),
        }
    }
}

/// `acc` with the widths of a `c [w0 w1 ...]` run entered: code
/// `c + j` gets `wj` wherever `wj` is a width.
pub open spec fn list_widths<W>(acc: Map<u16, W>, c: u16, ws: Seq<Option<W>>) -> Map<u16, W>
    decreases ws.len(),
{
    if ws.len() == 0 {
        acc
    } else {
        let before = list_widths(acc, c, ws.drop_last());
        match ws.last() {
            Some(w) => before.insert((c + ((ws.len() - 1) as usize as u16)) as u16, w),
            None => before,
        }
    }
}

/// A `c [w0 w1 ...]` run can be entered without a code overflowing
/// 16 bits.
pub open spec fn list_fits<W>(c: u16, ws: Seq<Option<W>>) -> bool {
    forall|j: int| 0 <= j < ws.len() && ws[j] is Some ==> c + (j as usize as u16) <= u16::MAX
}

/// `acc` with every code of `c1..=c2` given width `w`.
pub open spec fn range_widths<W>(acc: Map<u16, W>, c1: u16, c2: u16, w: W) -> Map<u16, W> {
    Map::new(
        |k: u16| acc.contains_key(k) || (c1 <= k && k <= c2),
        |k: u16| if c1 <= k && k <= c2 { w } else { acc[k] },
    )
}

/// The width table that reading the `W` array from position `i` on adds
/// to `acc`. Reading stops at the first element that cannot start a run.
pub open spec fn cid_widths_from<W>(items: Seq<WidthItem<W>>, i: int, acc: Map<u16, W>) -> Map<u16, W>
    decreases items.len() - i,
{
    if i < 0 || i + 1 >= items.len() {
        acc
    } else {
        match items[i] {
            WidthItem::Number(v, _) => {
                let c1 = v as u16;
                match items[i + 1] {
                    WidthItem::List(ws) => cid_widths_from(items, i + 2, list_widths(acc, c1, ws@)),
                    WidthItem::Number(v2, _) => {
                        if i + 2 < items.len() {
                            match items[i + 2] {
                                WidthItem::Number(_, w) => cid_widths_from(
                                    items,
                                    i + 3,
                                    range_widths(acc, c1, v2 as u16, w),
                                ),
                                _ => cid_widths_from(items, i + 3, acc),
                            }
                        } else {
                            acc
                        }
                    },
                    WidthItem::Other => acc,
                }
            },
            _ => acc,
        }
    }
}

/// Reading the `W` array from position `i` on never overflows a code.
pub open spec fn cid_widths_fit<W>(items: Seq<WidthItem<W>>, i: int) -> bool
    decreases items.len() - i,
{
    if i < 0 || i + 1 >= items.len() {
        true
    } else {
        match items[i] {
            WidthItem::Number(v, _) => {
                match items[i + 1] {
                    WidthItem::List(ws) => list_fits(v as u16, ws@) && cid_widths_fit(items, i + 2),
                    WidthItem::Number(_, _) => {
                        if i + 2 < items.len() {
                            cid_widths_fit(items, i + 3)
                        } else {
                            true
                        }
                    },
                    WidthItem::Other => true,
                }
            },
            _ => true,
        }
    }
}

/// Reads the `W` array of a composite font into a width table by CID:
/// `c [w0 w1 ...]` gives codes `c, c + 1, ...` the listed widths, and
/// `c1 c2 w` gives every code of `c1..=c2` the width `w`.
pub fn parse_cid_widths<W: Copy>(items: &Vec<WidthItem<W>>) -> (r: HashMap<u16, W>)
    requires
        cid_widths_fit(items@, 0),
    ensures
        r@ == cid_widths_from(items@, 0, Map::empty()),
{
    let mut widths: HashMap<u16, W> = HashMap::new();
    let n = items.len();
    let mut i: usize = 0;
    while i < n
        invariant
            n == items@.len(),
            cid_widths_from(items@, i as int, widths@) == cid_widths_from(items@, 0, Map::empty()),
            cid_widths_fit(items@, i as int),
        ensures
            cid_widths_from(items@, i as int, widths@) == widths@,
        decreases n - i,
    {
        let c1: u16 = match &items[i] {
            WidthItem::Number(v, _) => *v as u16,
            _ => break,
        };
        if i + 1 >= n {
            break;
        }
        match &items[i + 1] {
            WidthItem::List(ws) => {
                let ghost acc = widths@;
                let mut j: usize = 0;
                while j < ws.len()
                    invariant
                        list_fits(c1, ws@),
                        j <= ws@.len(),
                        widths@ == list_widths(acc, c1, ws@.take(j as int)),
                    decreases ws.len() - j,
                {
                    assert(ws@.take(j + 1).drop_last() =~= ws@.take(j as int));
                    match ws[j] {
                        Some(w) => {
                            let code: u16 = c1 + (j as u16);
                            widths.insert(code, w);
                        },
                        None => {},
                    }
                    j = j + 1;
                }
                assert(ws@.take(ws@.len() as int) =~= ws@);
                i = i + 2;
            },
            WidthItem::Number(v2, _) => {
                if i + 2 < n {
                    match &items[i + 2] {
                        WidthItem::Number(_, w) => {
                            let c2: u16 = *v2 as u16;
                            let ghost acc = widths@;
                            let mut cid: u32 = c1 as u32;
                            while cid <= c2 as u32
                                invariant
                                    c1 <= cid <= c2 as u32 + 1 || cid == c1,
                                    widths@ == Map::new(
                                        |k: u16| acc.contains_key(k) || (c1 <= k && k < cid),
                                        |k: u16| if c1 <= k && k < cid { *w } else { acc[k] },
                                    ),
                                decreases c2 as u32 + 1 - cid,
                            {
                                widths.insert(cid as u16, *w);
                                cid = cid + 1;
                                assert(widths@ =~= Map::new(
                                    |k: u16| acc.contains_key(k) || (c1 <= k && k < cid),
                                    |k: u16| if c1 <= k && k < cid { *w } else { acc[k] },
                                ));
                            }
                            assert(widths@ =~= range_widths(acc, c1, c2, *w));
                        },
                        _ => {},
                    }
                    i = i + 3;
                } else {
                    break;
                }
            },
            WidthItem::Other => {
                break;
            },
        }
    }
    widths
}

/// Whether a font's `Subtype` names a composite font (`Type0`).
pub fn is_composite_subtype(subtype: &str) -> (r: bool)
    ensures
        r == (subtype@ == "Type0"@),
{
    str_eq(subtype, "Type0")
}

/// Whether a composite font's `Encoding` name reads codes two bytes at a
/// time: `Identity-H` or `Identity-V`. A missing name does not.
pub fn is_identity_encoding(encoding: Option<&str>) -> (r: bool)
    ensures
        r == match encoding {
            Some(e) => e@ == "Identity-H"@ || e@ == "Identity-V"@,
            None => false,
        },
{
    match encoding {
        Some(e) => str_eq(e, "Identity-H") || str_eq(e, "Identity-V"),
        None => false,
    }
}

impl<W> FontMetrics<W> {
    /// The table of a simple font: `FirstChar` (0 when absent, cut to 16
    /// bits), the listed widths and the width of every other code.
    pub fn simple(first_char: Option<i64>, widths: Vec<W>, missing: W) -> (r: FontMetrics<W>)
        ensures
            r == (FontMetrics::Simple {
                first: match first_char {
                    Some(v) => v as u16,
                    None => 0u16,
                },
                widths,
                missing,
            }),
    {
        let first: u16 = match first_char {
            Some(v) => v as u16,
            None => 0,
        };
        FontMetrics::Simple { first, widths, missing }
    }

    /// The table of a composite font: widths by CID, the default width,
    /// and the `Encoding` name, which decides whether codes are two bytes.
    pub fn composite(widths: HashMap<u16, W>, dw: W, encoding: Option<&str>) -> (r: FontMetrics<W>)
        ensures
            r matches FontMetrics::Type0 { widths: w, dw: d, identity } && w == widths && d == dw
                && identity == match encoding {
                Some(e) => e@ == "Identity-H"@ || e@ == "Identity-V"@,
                None => false,
            },
    {
        let identity = is_identity_encoding(encoding);
        FontMetrics::Type0 { widths, dw, identity }
    }
}

/// Whether reading the `W` array never overflows a code (see
/// `cid_widths_fit`).
#[verifier::loop_isolation(false)]
pub fn cid_widths_fit_check<W>(items: &Vec<WidthItem<W>>) -> (r: bool)
    ensures
        r == cid_widths_fit(items@, 0),
{
    let n = items.len();
    let mut i: usize = 0;
    while i < n
        invariant
            n == items@.len(),
            cid_widths_fit(items@, i as int) == cid_widths_fit(items@, 0),
        decreases n - i,
    {
        let c1: u16 = match &items[i] {
            WidthItem::Number(v, _) => *v as u16,
            _ => return true,
        };
        if i + 1 >= n {
            return true;
        }
        match &items[i + 1] {
            WidthItem::List(ws) => {
                let mut j: usize = 0;
                while j < ws.len()
                    invariant
                        j <= ws@.len(),
                        forall|k: int| 0 <= k < j && ws@[k] is Some ==> c1 + (k as usize as u16) <= u16::MAX,
                    decreases ws.len() - j,
                {
                    if ws[j].is_some() && c1 as u32 + (j as u16) as u32 > 65535 {
                        assert(ws@[j as int] is Some);
                        assert(!list_fits(c1, ws@));
                        assert(!cid_widths_fit(items@, i as int));
                        return false;
                    }
                    j = j + 1;
                }
                i = i + 2;
            },
            WidthItem::Number(_, _) => {
                if i + 2 < n {
                    i = i + 3;
                } else {
                    return true;
                }
            },
            WidthItem::Other => {
                return true;
            },
        }
    }
    true
}

/// Reading codes two bytes at a time loses nothing: each code of an
/// even-length byte string holds its two bytes, high byte first.
pub proof fn law_two_byte_codes_lossless(bytes: Seq<u8>)
    requires
        bytes.len() % 2 == 0,
    ensures
        spec_codes(true, bytes).len() == bytes.len() / 2,
        forall|i: int|
            0 <= i < bytes.len() / 2 ==> #[trigger] spec_codes(true, bytes)[i] / 256 == bytes[2 * i]
                && spec_codes(true, bytes)[i] % 256 == bytes[2 * i + 1],
{
    assert forall|i: int| 0 <= i < bytes.len() / 2 implies #[trigger] spec_codes(true, bytes)[i] / 256
        == bytes[2 * i] && spec_codes(true, bytes)[i] % 256 == bytes[2 * i + 1] by {
        let hi = bytes[2 * i];
        let lo = bytes[2 * i + 1];
        assert(hi as int * 256 + lo as int <= 65535);
        let code = (hi as int * 256 + lo as int) as u16;
        assert(code == hi as int * 256 + lo as int);
        assert(code / 256 == hi && code % 256 == lo) by (nonlinear_arith)
            requires
                code == hi as int * 256 + lo as int,
                0 <= lo < 256,
                0 <= hi < 256,
        ;
    }
}

} // verus!
