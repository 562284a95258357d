//! The line tokenizer and the per-worker pass that folds a byte range into a
//! local station table.
use vstd::prelude::*;
use vstd::slice::slice_subrange;
use crate::decode::{parse_temp, temperature_tenths, lemma_temperature_range};
use crate::plan::NEWLINE;
use crate::table::{LocalTable, fold_readings, lemma_fold_ok, table_ok, counts_within};

verus! {

pub const SEPARATOR: u8 = 59;

/// The shortest temperature field, `D.D`, has three bytes: the search for the
/// terminator may start that far past the separator.
pub const NEWLINE_SKIP: usize = 3;

/// Why a chunk could not be read.
#[derive(PartialEq, Eq, Structural, Clone, Copy, Debug)]
pub enum FormatError {
    /// The record starting at `start` has a separator but no line terminator
    /// at least three bytes after it.
    Unterminated { start: usize },
    /// The temperature field `[start, end)` is not an optional `-` followed
    /// by `D.D` or `DD.D`.
    BadTemperature { start: usize, end: usize },
}

/// The first offset at or after `from` that holds `b`.
pub open spec fn first_from(data: Seq<u8>, b: u8, from: int) -> Option<int>
    decreases data.len() - from,
{
    if from < 0 || from >= data.len() {
        None
    } else if data[from] == b {
        Some(from)
    } else {
        first_from(data, b, from + 1)
    }
}

pub open spec fn prepend_readings(
    prefix: Seq<(Seq<u8>, int)>,
    r: Result<Seq<(Seq<u8>, int)>, FormatError>,
) -> Result<Seq<(Seq<u8>, int)>, FormatError> {
    match r {
        Ok(rest) => Ok(prefix + rest),
        Err(e) => Err(e),
    }
}

/// The readings from offset `pos` on: the name runs up to the next `;`, the
/// temperature field from there to the first terminator found at least three
/// bytes past the `;`. No further `;` ends the scan; a record without a
/// terminator, or with a field that does not decode, is an error.
pub open spec fn scan_from(data: Seq<u8>, pos: int) -> Result<Seq<(Seq<u8>, int)>, FormatError>
    decreases data.len() - pos,
    via scan_from_decreases
{
    if pos < 0 || pos >= data.len() {
        Ok(seq![])
    } else {
        match first_from(data, SEPARATOR, pos) {
            None => Ok(seq![]),
            Some(s) => match first_from(data, NEWLINE, s + 1 + NEWLINE_SKIP) {
                None => Err(FormatError::Unterminated { start: pos as usize }),
                Some(nl) => match temperature_tenths(data.subrange(s + 1, nl)) {
                    None => Err(FormatError::BadTemperature { start: (s + 1) as usize, end: nl as usize }),
                    Some(v) => prepend_readings(seq![(data.subrange(pos, s), v)], scan_from(data, nl + 1)),
                },
            },
        }
    }
}

#[via_fn]
proof fn scan_from_decreases(data: Seq<u8>, pos: int) {
    if 0 <= pos < data.len() {
        lemma_first_from(data, SEPARATOR, pos);
        if let Some(s) = first_from(data, SEPARATOR, pos) {
            lemma_first_from(data, NEWLINE, s + 1 + NEWLINE_SKIP);
        }
    }
}

/// The readings of a whole chunk.
pub open spec fn scan(data: Seq<u8>) -> Result<Seq<(Seq<u8>, int)>, FormatError> {
    scan_from(data, 0)
}

proof fn lemma_first_from(data: Seq<u8>, b: u8, from: int)
    requires
        0 <= from,
    ensures
        match first_from(data, b, from) {
            Some(k) => 0 <= from <= k < data.len() && data[k] == b && forall|j: int|
                from <= j < k ==> data[j] != b,
            None => forall|j: int| from <= j < data.len() ==> data[j] != b,
        },
    decreases data.len() - from,
{
    if 0 <= from < data.len() && data[from] != b {
        lemma_first_from(data, b, from + 1);
    }
}

/// From offset `pos` on, the buffer is a run of complete lines
/// `name;temperature\n`: each line's first `;` comes before its terminator and
/// the text between them is a valid temperature field.
pub open spec fn well_formed_from(data: Seq<u8>, pos: int) -> bool
    decreases data.len() - pos,
    via well_formed_from_decreases
{
    if pos < 0 || pos >= data.len() {
        pos == data.len()
    } else {
        match (first_from(data, NEWLINE, pos), first_from(data, SEPARATOR, pos)) {
            (Some(nl), Some(s)) => s < nl && temperature_tenths(data.subrange(s + 1, nl)) is Some
                && well_formed_from(data, nl + 1),
            _ => false,
        }
    }
}

#[via_fn]
proof fn well_formed_from_decreases(data: Seq<u8>, pos: int) {
    if 0 <= pos < data.len() {
        lemma_first_from(data, NEWLINE, pos);
    }
}

/// The whole buffer is a run of complete, valid lines.
pub open spec fn well_formed(data: Seq<u8>) -> bool {
    well_formed_from(data, 0)
}

proof fn lemma_first_from_is(data: Seq<u8>, b: u8, from: int, k: int)
    requires
        0 <= from <= k < data.len(),
        data[k] == b,
        forall|j: int| from <= j < k ==> data[j] != b,
    ensures
        first_from(data, b, from) == Some(k),
{
    lemma_first_from(data, b, from);
}

proof fn lemma_first_from_sub(data: Seq<u8>, b: u8, a: int, e: int, from: int)
    requires
        0 <= a <= from <= e <= data.len(),
    ensures
        first_from(data.subrange(a, e), b, from - a) == match first_from(data, b, from) {
            Some(k) => if k < e {
                Some(k - a)
            } else {
                None
            },
            None => None,
        },
    decreases e - from,
{
    lemma_first_from(data, b, from);
    if from < e {
        assert(data.subrange(a, e)[from - a] == data[from]);
        if data[from] != b {
            lemma_first_from_sub(data, b, a, e, from + 1);
        }
    }
}

/// Cutting well-formed data at a line boundary `q`: the readings from `p` on
/// are those of `data[a..q)` from `p` on, followed by those from `q` on.
proof fn lemma_scan_split(data: Seq<u8>, a: int, p: int, q: int)
    requires
        0 <= a <= p <= q <= data.len(),
        well_formed_from(data, p),
        p < q ==> data[q - 1] == NEWLINE,
    ensures
        well_formed_from(data, q),
        scan_from(data.subrange(a, q), p - a) is Ok,
        scan_from(data, p) == prepend_readings(
            scan_from(data.subrange(a, q), p - a)->Ok_0,
            scan_from(data, q),
        ),
    decreases q - p,
{
    let sub = data.subrange(a, q);
    if p == q {
        let x = scan_from(data, q);
        if x is Ok {
            assert(seq![] + x->Ok_0 =~= x->Ok_0);
        }
    } else {
        lemma_first_from(data, NEWLINE, p);
        lemma_first_from(data, SEPARATOR, p);
        let nl = first_from(data, NEWLINE, p)->0;
        let s = first_from(data, SEPARATOR, p)->0;
        let field = data.subrange(s + 1, nl);
        assert(nl <= q - 1);
        assert(field.len() >= 3);
        lemma_first_from_is(data, NEWLINE, s + 1 + NEWLINE_SKIP, nl);
        lemma_first_from_sub(data, SEPARATOR, a, q, p);
        lemma_first_from_sub(data, NEWLINE, a, q, s + 1 + NEWLINE_SKIP);
        assert(sub.subrange(s + 1 - a, nl - a) =~= field);
        assert(sub.subrange(p - a, s - a) =~= data.subrange(p, s));
        lemma_scan_split(data, a, nl + 1, q);
        let x = (data.subrange(p, s), temperature_tenths(field)->0);
        let rest = scan_from(sub, nl + 1 - a)->Ok_0;
        let tail = scan_from(data, q);
        if tail is Ok {
            assert(seq![x] + (rest + tail->Ok_0) =~= (seq![x] + rest) + tail->Ok_0);
        }
    }
}

/// On well-formed data the chunk `[p, q)` between two line boundaries reads
/// without error, and the readings from `p` on are its readings followed by
/// those from `q` on.
pub proof fn lemma_chunk_readings(data: Seq<u8>, p: int, q: int)
    requires
        0 <= p <= q <= data.len(),
        well_formed_from(data, p),
        p < q ==> data[q - 1] == NEWLINE,
    ensures
        well_formed_from(data, q),
        scan(data.subrange(p, q)) is Ok,
        scan_from(data, p) == prepend_readings(scan(data.subrange(p, q))->Ok_0, scan_from(data, q)),
{
    lemma_scan_split(data, p, p, q);
}

/// Relies on `memchr::memchr`: the position of the first occurrence of
/// `needle` in `haystack`, if there is one.
#[verifier::external_body]
fn index_of(needle: u8, haystack: &[u8]) -> (r: Option<usize>)
    ensures
        match r {
            Some(i) => i < haystack@.len() && haystack@[i as int] == needle && forall|j: int|
                0 <= j < i ==> haystack@[j] != needle,
            None => forall|j: int| 0 <= j < haystack@.len() ==> haystack@[j] != needle,
        },
{
    memchr::memchr(needle, haystack)
}

/// The first offset at or after `from` that holds `b`.
fn find_from(data: &[u8], b: u8, from: usize) -> (r: Option<usize>)
    requires
        from <= data@.len(),
    ensures
        match r {
            Some(k) => first_from(data@, b, from as int) == Some(k as int),
            None => first_from(data@, b, from as int) is None,
        },
{
    let rest = slice_subrange(data, from, data.len());
    let r = index_of(b, rest);
    proof {
        lemma_first_from(data@, b, from as int);
        if let Some(i) = r {
            assert(data@[from + i] == rest@[i as int]);
            assert forall|j: int| from <= j < from + i implies data@[j] != b by {
                assert(data@[j] == rest@[j - from]);
            }
        } else {
            assert forall|j: int| from <= j < data@.len() implies data@[j] != b by {
                assert(data@[j] == rest@[j - from]);
            }
        }
    }
    match r {
        Some(i) => Some(from + i),
        None => None,
    }
}

/// Folds every record of `data` into a new local table: its stations are
/// those of the chunk's readings, each with the aggregate of its readings.
pub fn process_chunk(data: &[u8]) -> (r: Result<LocalTable, FormatError>)
    ensures
        match r {
            Ok(t) => {
                &&& t.wf()
                &&& scan(data@) is Ok
                &&& t.view() == fold_readings(scan(data@)->Ok_0)
                &&& table_ok(t.view())
                &&& counts_within(t.view(), data@.len() as int)
            },
            Err(e) => scan(data@) == Err::<Seq<(Seq<u8>, int)>, FormatError>(e),
        },
{
    let len = data.len();
    let mut table = LocalTable::new();
    let mut pos: usize = 0;
    let ghost mut done: Seq<(Seq<u8>, int)> = seq![];
    assert(done + seq![] =~= done);
    loop
        invariant
            pos <= len == data@.len(),
            table.wf(),
            table.view() == fold_readings(done),
            done.len() <= pos,
            forall|i: int| 0 <= i < done.len() ==> -999 <= #[trigger] done[i].1 <= 999,
            scan(data@) == prepend_readings(done, scan_from(data@, pos as int)),
        decreases len - pos,
    {
        let sep = match find_from(data, SEPARATOR, pos) {
            None => {
                assert(done + seq![] =~= done);
                proof {
                    lemma_fold_ok(done);
                }
                return Ok(table);
            },
            Some(s) => s,
        };
        proof {
            lemma_first_from(data@, SEPARATOR, pos as int);
        }
        if len - sep <= 1 + NEWLINE_SKIP {
            return Err(FormatError::Unterminated { start: pos });
        }
        let nl = match find_from(data, NEWLINE, sep + 1 + NEWLINE_SKIP) {
            None => {
                return Err(FormatError::Unterminated { start: pos });
            },
            Some(n) => n,
        };
        proof {
            lemma_first_from(data@, NEWLINE, sep + 1 + NEWLINE_SKIP);
        }
        let field = slice_subrange(data, sep + 1, nl);
        let temp = match parse_temp(field) {
            None => {
                return Err(FormatError::BadTemperature { start: sep + 1, end: nl });
            },
            Some(t) => t,
        };
        proof {
            lemma_temperature_range(field@);
            lemma_fold_ok(done);
        }
        let name = slice_subrange(data, pos, sep);
        table.add(name, temp);
        proof {
            let x = (name@, temp as int);
            let d2 = done.push(x);
            assert(d2.drop_last() =~= done);
            let tail = scan_from(data@, nl + 1);
            if tail is Ok {
                assert(done + (seq![x] + tail->Ok_0) =~= d2 + tail->Ok_0);
            }
            done = d2;
        }
        pos = nl + 1;
    }
}

} // verus!
