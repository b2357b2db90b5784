//! The line-oriented source dataset: each line holds at least four
//! comma-separated fields, `cidr, isp, asn, ...`; fields beyond the third are
//! ignored. Fields are stripped of surrounding whitespace, and the ISP field
//! additionally of surrounding double quotes. Lines with fewer than four
//! fields, and lines whose CIDR does not parse, are skipped by the builder.

use vstd::prelude::*;

use crate::buckets::appended_bucket;
use crate::buckets::IPRangeHashMap;
use crate::cidr::cidr_model;
use crate::cidr::find_from;
use crate::direct::IPRangeDirectLookup;

verus! {

/// Whitespace stripped from field ends.
pub open spec fn is_space(c: char) -> bool {
    c == ' ' || c == '\t' || c == '\r' || c == '\n'
}

/// First position in `s[from..to]` that does not hold whitespace.
pub open spec fn scan_ws_start(s: Seq<char>, from: int, to: int) -> int
    decreases to - from,
{
    if 0 <= from < to <= s.len() && is_space(s[from]) {
        scan_ws_start(s, from + 1, to)
    } else {
        from
    }
}

/// Position after the last non-whitespace character of `s[from..to]`.
pub open spec fn scan_ws_end(s: Seq<char>, from: int, to: int) -> int
    decreases to,
{
    if 0 <= from < to <= s.len() && is_space(s[to - 1]) {
        scan_ws_end(s, from, to - 1)
    } else {
        to
    }
}

/// First position in `s[from..to]` that does not hold a double quote.
pub open spec fn scan_quote_start(s: Seq<char>, from: int, to: int) -> int
    decreases to - from,
{
    if 0 <= from < to <= s.len() && s[from] == '"' {
        scan_quote_start(s, from + 1, to)
    } else {
        from
    }
}

/// Position after the last non-quote character of `s[from..to]`.
pub open spec fn scan_quote_end(s: Seq<char>, from: int, to: int) -> int
    decreases to,
{
    if 0 <= from < to <= s.len() && s[to - 1] == '"' {
        scan_quote_end(s, from, to - 1)
    } else {
        to
    }
}

/// The three fields a dataset line yields: the trimmed CIDR text, the
/// trimmed and unquoted ISP text, and the trimmed ASN text. `None` when the
/// line has fewer than four comma-separated fields.
pub open spec fn line_fields(line: Seq<char>) -> Option<(Seq<char>, Seq<char>, Seq<char>)> {
    let n = line.len() as int;
    let c1 = find_from(line, ',', 0, n);
    let c2 = find_from(line, ',', c1 + 1, n);
    let c3 = find_from(line, ',', c2 + 1, n);
    if c3 >= n {
        None
    } else {
        let a1 = scan_ws_start(line, 0, c1);
        let b1 = scan_ws_end(line, a1, c1);
        let a2 = scan_ws_start(line, c1 + 1, c2);
        let b2 = scan_ws_end(line, a2, c2);
        let qa = scan_quote_start(line, a2, b2);
        let qb = scan_quote_end(line, qa, b2);
        let a3 = scan_ws_start(line, c2 + 1, c3);
        let b3 = scan_ws_end(line, a3, c3);
        Some((line.subrange(a1, b1), line.subrange(qa, qb), line.subrange(a3, b3)))
    }
}

proof fn lemma_scan_ws_start_bounds(s: Seq<char>, from: int, to: int)
    requires
        0 <= from <= to <= s.len(),
    ensures
        from <= scan_ws_start(s, from, to) <= to,
    decreases to - from,
{
    if 0 <= from < to <= s.len() && is_space(s[from]) {
        lemma_scan_ws_start_bounds(s, from + 1, to);
    }
}

proof fn lemma_scan_ws_end_bounds(s: Seq<char>, from: int, to: int)
    requires
        0 <= from <= to <= s.len(),
    ensures
        from <= scan_ws_end(s, from, to) <= to,
    decreases to,
{
    if 0 <= from < to <= s.len() && is_space(s[to - 1]) {
        lemma_scan_ws_end_bounds(s, from, to - 1);
    }
}

proof fn lemma_scan_quote_start_bounds(s: Seq<char>, from: int, to: int)
    requires
        0 <= from <= to <= s.len(),
    ensures
        from <= scan_quote_start(s, from, to) <= to,
    decreases to - from,
{
    if 0 <= from < to <= s.len() && s[from] == '"' {
        lemma_scan_quote_start_bounds(s, from + 1, to);
    }
}

proof fn lemma_scan_quote_end_bounds(s: Seq<char>, from: int, to: int)
    requires
        0 <= from <= to <= s.len(),
    ensures
        from <= scan_quote_end(s, from, to) <= to,
    decreases to,
{
    if 0 <= from < to <= s.len() && s[to - 1] == '"' {
        lemma_scan_quote_end_bounds(s, from, to - 1);
    }
}

/// First position in `s[from..to]` without whitespace, as `scan_ws_start`.
fn ws_start(s: &str, from: usize, to: usize) -> (a: usize)
    requires
        from <= to,
        to <= s@.len(),
    ensures
        a as int == scan_ws_start(s@, from as int, to as int),
        from <= a <= to,
{
    let mut i = from;
    while i < to
        invariant
            from <= i <= to,
            to <= s@.len(),
            scan_ws_start(s@, from as int, to as int) == scan_ws_start(s@, i as int, to as int),
        decreases to - i,
    {
        let c = s.get_char(i);
        if !(c == ' ' || c == '\t' || c == '\r' || c == '\n') {
            return i;
        }
        i += 1;
    }
    to
}

/// Position after the last non-whitespace of `s[from..to]`, as `scan_ws_end`.
fn ws_end(s: &str, from: usize, to: usize) -> (b: usize)
    requires
        from <= to,
        to <= s@.len(),
    ensures
        b as int == scan_ws_end(s@, from as int, to as int),
        from <= b <= to,
{
    let mut j = to;
    while j > from
        invariant
            from <= j <= to,
            to <= s@.len(),
            scan_ws_end(s@, from as int, to as int) == scan_ws_end(s@, from as int, j as int),
        decreases j,
    {
        let c = s.get_char(j - 1);
        if !(c == ' ' || c == '\t' || c == '\r' || c == '\n') {
            return j;
        }
        j -= 1;
    }
    from
}

/// First position in `s[from..to]` without a quote, as `scan_quote_start`.
fn quote_start(s: &str, from: usize, to: usize) -> (a: usize)
    requires
        from <= to,
        to <= s@.len(),
    ensures
        a as int == scan_quote_start(s@, from as int, to as int),
        from <= a <= to,
{
    let mut i = from;
    while i < to
        invariant
            from <= i <= to,
            to <= s@.len(),
            scan_quote_start(s@, from as int, to as int) == scan_quote_start(
                s@,
                i as int,
                to as int,
            ),
        decreases to - i,
    {
        if s.get_char(i) != '"' {
            return i;
        }
        i += 1;
    }
    to
}

/// Position after the last non-quote of `s[from..to]`, as `scan_quote_end`.
fn quote_end(s: &str, from: usize, to: usize) -> (b: usize)
    requires
        from <= to,
        to <= s@.len(),
    ensures
        b as int == scan_quote_end(s@, from as int, to as int),
        from <= b <= to,
{
    let mut j = to;
    while j > from
        invariant
            from <= j <= to,
            to <= s@.len(),
            scan_quote_end(s@, from as int, to as int) == scan_quote_end(s@, from as int, j as int),
        decreases j,
    {
        if s.get_char(j - 1) != '"' {
            return j;
        }
        j -= 1;
    }
    from
}

/// Positions of the whitespace-trimmed content of `s[from..to]`.
fn trim_bounds(s: &str, from: usize, to: usize) -> (r: (usize, usize))
    requires
        from <= to,
        to <= s@.len(),
    ensures
        r.0 as int == scan_ws_start(s@, from as int, to as int),
        r.1 as int == scan_ws_end(s@, r.0 as int, to as int),
        from <= r.0 <= r.1 <= to,
{
    let a = ws_start(s, from, to);
    let b = ws_end(s, a, to);
    (a, b)
}

/// Positions of the quote-stripped content of `s[from..to]`.
fn quote_bounds(s: &str, from: usize, to: usize) -> (r: (usize, usize))
    requires
        from <= to,
        to <= s@.len(),
    ensures
        r.0 as int == scan_quote_start(s@, from as int, to as int),
        r.1 as int == scan_quote_end(s@, r.0 as int, to as int),
        from <= r.0 <= r.1 <= to,
{
    let a = quote_start(s, from, to);
    let b = quote_end(s, a, to);
    (a, b)
}

/// Splits one dataset line into its CIDR, ISP and ASN texts, exactly as
/// `line_fields` states; `None` when the line has fewer than four fields.
pub fn parse_dataset_line(line: &str) -> (r: Option<(String, String, String)>)
    ensures
        match r {
            Some(f) => line_fields(line@) == Some((f.0@, f.1@, f.2@)),
            None => line_fields(line@) is None,
        },
{
    let n = line.unicode_len();
    let c1 = crate::cidr::find_char_in(line, ',', 0, n);
    let c2 = crate::cidr::find_char_in(line, ',', if c1 < n {
        c1 + 1
    } else {
        n
    }, n);
    let c3 = crate::cidr::find_char_in(line, ',', if c2 < n {
        c2 + 1
    } else {
        n
    }, n);
    if c3 == n {
        return None;
    }
    let (a1, b1) = trim_bounds(line, 0, c1);
    let (a2, b2) = trim_bounds(line, c1 + 1, c2);
    let (qa, qb) = quote_bounds(line, a2, b2);
    let (a3, b3) = trim_bounds(line, c2 + 1, c3);
    let f1 = String::from_str(line.substring_char(a1, b1));
    let f2 = String::from_str(line.substring_char(qa, qb));
    let f3 = String::from_str(line.substring_char(a3, b3));
    Some((f1, f2, f3))
}

/// What one line contributes to an index: the parsed network and prefix with
/// the three field texts, or nothing when the line is skipped (fewer than
/// four fields, or a CIDR that does not parse).
pub open spec fn line_entry(line: Seq<char>) -> Option<
    ((u32, u8), (Seq<char>, Seq<char>, Seq<char>)),
> {
    match line_fields(line) {
        None => None,
        Some(f) => match cidr_model(f.0) {
            Some(np) => Some((np, f)),
            None => None,
        },
    }
}

/// The entries that a whole dataset contributes, in line order, skipped
/// lines left out.
pub open spec fn dataset_entries(lines: Seq<Seq<char>>) -> Seq<
    ((u32, u8), (Seq<char>, Seq<char>, Seq<char>)),
>
    decreases lines.len(),
{
    if lines.len() == 0 {
        Seq::empty()
    } else {
        let rest = dataset_entries(lines.drop_last());
        match line_entry(lines.last()) {
            Some(e) => rest.push(e),
            None => rest,
        }
    }
}

/// Inserts every well-formed dataset line into the index, in order, skipping
/// malformed lines; the table itself is unchanged until `build_table` runs.
pub fn load_dataset(idx: &mut IPRangeDirectLookup, lines: &Vec<String>)
    requires
        old(idx).wf(),
    ensures
        final(idx).wf(),
        final(idx).bits() == old(idx).bits(),
        final(idx).table_view() == old(idx).table_view(),
        final(idx).entry_seq().len() == old(idx).entry_seq().len() + dataset_entries(
            lines.deep_view(),
        ).len(),
        final(idx).entry_seq().take(old(idx).entry_seq().len() as int) == old(idx).entry_seq(),
        forall|j: int|
            0 <= j < dataset_entries(lines.deep_view()).len() ==> {
                let e = final(idx).entry_seq()[old(idx).entry_seq().len() + j];
                let d = #[trigger] dataset_entries(lines.deep_view())[j];
                &&& e.network == d.0.0
                &&& e.prefix == d.0.1
                &&& e.ip_range.cidr_range@ == d.1.0
                &&& e.ip_range.isp@ == d.1.1
                &&& e.ip_range.asn@ == d.1.2
            },
{
    let ghost lseq = lines.deep_view();
    let ghost base = old(idx).entry_seq().len() as int;
    let mut k: usize = 0;
    while k < lines.len()
        invariant
            idx.wf(),
            idx.bits() == old(idx).bits(),
            idx.table_view() == old(idx).table_view(),
            k <= lines.len(),
            lseq == lines.deep_view(),
            lseq.len() == lines@.len(),
            forall|i: int| 0 <= i < lines@.len() ==> #[trigger] lseq[i] == lines@[i]@,
            base == old(idx).entry_seq().len() as int,
            idx.entry_seq().len() == base + dataset_entries(lseq.take(k as int)).len(),
            idx.entry_seq().take(base) == old(idx).entry_seq(),
            forall|j: int|
                0 <= j < dataset_entries(lseq.take(k as int)).len() ==> {
                    let e = idx.entry_seq()[base + j];
                    let d = #[trigger] dataset_entries(lseq.take(k as int))[j];
                    &&& e.network == d.0.0
                    &&& e.prefix == d.0.1
                    &&& e.ip_range.cidr_range@ == d.1.0
                    &&& e.ip_range.isp@ == d.1.1
                    &&& e.ip_range.asn@ == d.1.2
                },
        decreases lines.len() - k,
    {
        let ghost prev_entries = idx.entry_seq();
        let line = &lines[k];
        proof {
            assert(lseq.take(k as int + 1).drop_last() =~= lseq.take(k as int));
            assert(lseq.take(k as int + 1).last() == lseq[k as int]);
        }
        match parse_dataset_line(line.as_str()) {
            Some((cidr, isp, asn)) => {
                let res = idx.insert_range(cidr.as_str(), isp.as_str(), asn.as_str());
                proof {
                    if res is Ok {
                        assert(idx.entry_seq().drop_last() == prev_entries);
                        assert(idx.entry_seq().take(base) =~= prev_entries.take(base));
                    } else {
                        assert(line_entry(lseq[k as int]) is None);
                    }
                }
            },
            None => {
                assert(line_entry(lseq[k as int]) is None);
            },
        }
        k += 1;
    }
    proof {
        assert(lseq.take(lines@.len() as int) =~= lseq);
    }
}

/// Builds one complete index generation from dataset lines: a fresh direct
/// index holding exactly the entries of the well-formed lines, with its
/// table fully built, ready to be published in one swap. Malformed lines
/// are skipped, never fatal.
pub fn rebuild_generation(lines: &Vec<String>, index_bits: u32) -> (r: IPRangeDirectLookup)
    requires
        1 <= index_bits <= 32,
    ensures
        r.wf(),
        r.built(),
        r.bits() == index_bits,
        r.entry_seq().len() == dataset_entries(lines.deep_view()).len(),
        forall|j: int|
            0 <= j < dataset_entries(lines.deep_view()).len() ==> {
                let e = r.entry_seq()[j];
                let d = #[trigger] dataset_entries(lines.deep_view())[j];
                &&& e.network == d.0.0
                &&& e.prefix == d.0.1
                &&& e.ip_range.cidr_range@ == d.1.0
                &&& e.ip_range.isp@ == d.1.1
                &&& e.ip_range.asn@ == d.1.2
            },
{
    let mut idx = IPRangeDirectLookup::new(index_bits);
    load_dataset(&mut idx, lines);
    idx.build_table();
    idx
}

/// Inserts one dataset line into a bucket index: a line with at least four
/// fields and a valid CIDR is appended, and any other line leaves the index
/// exactly as it was.
pub fn insert_dataset_line(m: &mut IPRangeHashMap, line: &str) -> (inserted: bool)
    requires
        old(m).wf(),
    ensures
        final(m).wf(),
        inserted <==> line_entry(line@) is Some,
        !inserted ==> *final(m) == *old(m),
        inserted ==> (line_fields(line@) matches Some(f) && appended_bucket(
            old(m).buckets(),
            final(m).buckets(),
            f.0,
            f.1,
            f.2,
        )),
{
    match parse_dataset_line(line) {
        None => false,
        Some((cidr, isp, asn)) => match m.insert_range(cidr.as_str(), isp.as_str(), asn.as_str()) {
            Ok(_) => true,
            Err(_) => false,
        },
    }
}

} // verus!
