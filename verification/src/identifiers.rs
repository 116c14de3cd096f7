//! The sorted identifier index: a read-only byte buffer of newline-terminated
//! `<id> <symbol>` records, sorted by the uppercase form of each line, searched
//! by bisection.
//!
//! The buffer may be absent (the tree has no built identifier index): that is a
//! valid state, and every query on it returns an empty result.

use vstd::prelude::*;

use crate::order::{lex_le, lex_lt, lex_less, upper_seq, uppercase, NL, SPACE, TILDE};
use vstd::string::StringSliceAdditionalSpecFns;
use crate::order::{lemma_lex_total, lemma_lex_trans, lemma_prefix_le};

verus! {

/// Start of the line containing position `p`: scans left to the nearest
/// newline boundary.
pub open spec fn line_start(s: Seq<u8>, p: int) -> int
    decreases p,
{
    if p <= 0 {
        0
    } else if s[p - 1] == NL {
        p
    } else {
        line_start(s, p - 1)
    }
}

/// End of the line containing position `p`: scans right to the next newline
/// or the end of the buffer.
pub open spec fn line_end(s: Seq<u8>, p: int) -> int
    decreases s.len() - p,
{
    if p >= s.len() {
        s.len() as int
    } else if s[p] == NL {
        p
    } else {
        line_end(s, p + 1)
    }
}

/// A probe position sitting on a newline is pulled back onto the line the
/// newline terminates.
pub open spec fn snap(s: Seq<u8>, p: int) -> int {
    if 0 <= p < s.len() && s[p] == NL {
        p - 1
    } else {
        p
    }
}

/// The full line (newline excluded) containing position `p`.
pub open spec fn line_at(s: Seq<u8>, p: int) -> Seq<u8> {
    s.subrange(line_start(s, snap(s, p)), line_end(s, snap(s, p)))
}

/// Well-formedness of the index buffer, established by the offline index
/// build: newline-terminated non-empty printable lines, each carrying both
/// of its space-separated fields, sorted (position by position) by their
/// uppercase form.
pub open spec fn wf_buf(s: Seq<u8>) -> bool {
    &&& s.len() > 0 ==> s[s.len() - 1] == NL
    &&& forall|i: int| 0 <= i < s.len() ==> (#[trigger] s[i] == NL || (32 <= s[i] && s[i] < 126))
    &&& forall|i: int| 0 <= i < s.len() && #[trigger] s[i] == NL ==> i > 0 && s[i - 1] != NL
    &&& forall|i: int|
        0 <= i < s.len() ==> first_byte(#[trigger] line_at(s, i), SPACE) < line_at(s, i).len()
    &&& forall|i: int, j: int|
        0 <= i <= j < s.len() ==> #[trigger] lex_le(
            upper_seq(line_at(s, i)),
            upper_seq(line_at(s, j)),
        )
}

/// The key a bisection compares against: the uppercased needle, with the
/// sentinel appended when the upper end of the prefix run is wanted.
pub open spec fn bkey(nb: Seq<u8>, upper_bound: bool) -> Seq<u8> {
    if upper_bound {
        upper_seq(nb).push(TILDE)
    } else {
        upper_seq(nb)
    }
}

/// Whether the bisection steps past position `q`: its line compares below the
/// key (or below-or-equal, for an upper-bound search).
pub open spec fn probe_before(s: Seq<u8>, q: int, key: Seq<u8>, upper_bound: bool) -> bool {
    if upper_bound {
        lex_le(upper_seq(line_at(s, q)), key)
    } else {
        lex_lt(upper_seq(line_at(s, q)), key)
    }
}

/// First position at or after `a` whose line does not compare before the key;
/// the length of the buffer if every position does.
pub open spec fn bisect_from(s: Seq<u8>, key: Seq<u8>, upper_bound: bool, a: int) -> int
    decreases s.len() - a,
{
    if a < 0 || a >= s.len() {
        s.len() as int
    } else if probe_before(s, a, key, upper_bound) {
        bisect_from(s, key, upper_bound, a + 1)
    } else {
        a
    }
}

/// The byte offset a bisection for `nb` converges to.
pub open spec fn spec_bisect(s: Seq<u8>, nb: Seq<u8>, upper_bound: bool) -> int {
    bisect_from(s, bkey(nb, upper_bound), upper_bound, 0)
}

proof fn lemma_line_start(s: Seq<u8>, p: int)
    requires
        0 <= p <= s.len(),
    ensures
        0 <= line_start(s, p) <= p,
        forall|k: int| line_start(s, p) <= k < p ==> s[k] != NL,
    decreases p,
{
    if p > 0 && s[p - 1] != NL {
        lemma_line_start(s, p - 1);
    }
}

/// In a well-formed buffer two ordered positions carry lines in order, so a
/// probe that steps past the later position steps past the earlier one too.
proof fn lemma_probe_mono(s: Seq<u8>, key: Seq<u8>, upper_bound: bool, p: int, q: int)
    requires
        wf_buf(s),
        0 <= p <= q < s.len(),
    ensures
        probe_before(s, q, key, upper_bound) ==> probe_before(s, p, key, upper_bound),
{
    assert(lex_le(upper_seq(line_at(s, p)), upper_seq(line_at(s, q))));
    let lp = upper_seq(line_at(s, p));
    let lq = upper_seq(line_at(s, q));
    if probe_before(s, q, key, upper_bound) {
        if upper_bound {
            if lex_lt(key, lp) {
                lemma_lex_total(lp, lq);
                if lex_lt(lp, lq) {
                    lemma_lex_trans(key, lp, lq);
                }
            }
        } else {
            lemma_lex_total(lp, lq);
            if lex_lt(lp, lq) {
                lemma_lex_trans(lp, lq, key);
            }
        }
    }
}

proof fn lemma_bisect_from_props(s: Seq<u8>, key: Seq<u8>, upper_bound: bool, a: int)
    requires
        0 <= a <= s.len(),
    ensures
        a <= bisect_from(s, key, upper_bound, a) <= s.len(),
        forall|q: int|
            a <= q < bisect_from(s, key, upper_bound, a) ==> probe_before(s, q, key, upper_bound),
        bisect_from(s, key, upper_bound, a) < s.len() ==> !probe_before(
            s,
            bisect_from(s, key, upper_bound, a),
            key,
            upper_bound,
        ),
    decreases s.len() - a,
{
    if a < s.len() && probe_before(s, a, key, upper_bound) {
        lemma_bisect_from_props(s, key, upper_bound, a + 1);
    }
}

proof fn lemma_bisect_from_char(s: Seq<u8>, key: Seq<u8>, upper_bound: bool, a: int, r: int)
    requires
        0 <= a <= r <= s.len(),
        forall|q: int| a <= q < r ==> probe_before(s, q, key, upper_bound),
        r < s.len() ==> !probe_before(s, r, key, upper_bound),
    ensures
        bisect_from(s, key, upper_bound, a) == r,
    decreases r - a,
{
    if a < r {
        lemma_bisect_from_char(s, key, upper_bound, a + 1, r);
    }
}

/// The two ends of a prefix run are ordered: the lower bisection never lands
/// past the upper one.
pub proof fn lemma_bisect_le(s: Seq<u8>, nb: Seq<u8>)
    requires
        wf_buf(s),
    ensures
        0 <= spec_bisect(s, nb, false) <= s.len(),
        0 <= spec_bisect(s, nb, true) <= s.len(),
        spec_bisect(s, nb, false) <= spec_bisect(s, nb, true),
{
    let lo = spec_bisect(s, nb, false);
    let hi = spec_bisect(s, nb, true);
    lemma_bisect_from_props(s, bkey(nb, false), false, 0);
    lemma_bisect_from_props(s, bkey(nb, true), true, 0);
    if lo > hi {
        let l = upper_seq(line_at(s, hi));
        assert(probe_before(s, hi, bkey(nb, false), false));
        assert(!probe_before(s, hi, bkey(nb, true), true));
        assert(lex_lt(l, bkey(nb, false)));
        assert(!lex_le(l, bkey(nb, true)));
        lemma_lex_trans(bkey(nb, true), l, bkey(nb, false));
        assert(bkey(nb, false).is_prefix_of(bkey(nb, true))) by {
            assert(bkey(nb, true).subrange(0, bkey(nb, false).len() as int) =~= bkey(nb, false));
        }
        lemma_prefix_le(bkey(nb, false), bkey(nb, true));
    }
}

/// One search result: the identifier to display and the raw symbol of the
/// matched record.
#[derive(Debug)]
pub struct IdentResult {
    pub id: String,
    pub symbol: String,
}

/// The sorted identifier index over an optional read-only buffer.
#[derive(Debug)]
pub struct IdentMap {
    buf: Option<Vec<u8>>,
}

impl View for IdentMap {
    type V = Option<Seq<u8>>;

    closed spec fn view(&self) -> Option<Seq<u8>> {
        match self.buf {
            Some(ref v) => Some(v@),
            None => None,
        }
    }
}

impl IdentMap {
    /// Build the index over the contents of the identifiers file, or over
    /// nothing when the file could not be mapped: absence is a valid state,
    /// never a construction failure.
    pub fn new(contents: Option<Vec<u8>>) -> (r: IdentMap)
        ensures
            r@ == match contents {
                Some(v) => Some(v@),
                None => None::<Seq<u8>>,
            },
    {
        IdentMap { buf: contents }
    }

    /// Copy out the full line containing byte position `pos`, snapping a
    /// position on a newline back onto the line it terminates.
    fn get_line(&self, pos: usize) -> (r: Vec<u8>)
        requires
            self@ matches Some(s) && pos < s.len() && (s[pos as int] == NL ==> pos > 0),
        ensures
            self@ matches Some(s) && r@ == line_at(s, pos as int),
    {
        let buf = self.buf.as_ref().unwrap();
        let ghost s = buf@;
        let mut p = pos;
        if buf[p] == NL {
            p = p - 1;
        }
        proof {
            assert(snap(s, pos as int) == p as int);
        }
        let mut start: usize = p;
        while start > 0 && buf[start - 1] != NL
            invariant
                start <= p < s.len(),
                s == buf@,
                line_start(s, p as int) == line_start(s, start as int),
            decreases start,
        {
            start = start - 1;
        }
        assert(start as int == line_start(s, p as int));
        let mut end: usize = p;
        while end < buf.len() && buf[end] != NL
            invariant
                p <= end <= s.len(),
                s == buf@,
                line_end(s, p as int) == line_end(s, end as int),
            decreases s.len() - end,
        {
            end = end + 1;
        }
        assert(end as int == line_end(s, p as int));
        let mut out: Vec<u8> = Vec::new();
        let mut k = start;
        while k < end
            invariant
                start <= k <= end <= s.len(),
                s == buf@,
                out@ == s.subrange(start as int, k as int),
            decreases end - k,
        {
            out.push(buf[k]);
            proof {
                assert(s.subrange(start as int, k + 1 as int) =~= s.subrange(
                    start as int,
                    k as int,
                ).push(s[k as int]));
            }
            k = k + 1;
        }
        out
    }

    /// Binary search over line-granular positions: the returned offset splits
    /// the buffer at the first line not comparing before the (uppercased,
    /// possibly sentinel-extended) needle.
    pub fn bisect(&self, needle: &[u8], upper_bound: bool) -> (r: usize)
        requires
            self@ matches Some(s) ==> wf_buf(s),
        ensures
            self@ is None ==> r == 0,
            self@ matches Some(s) ==> r as int == spec_bisect(s, needle@, upper_bound) && r
                <= s.len(),
    {
        let mut key = uppercase(needle);
        if upper_bound {
            key.push(TILDE);
        }
        let buf = match &self.buf {
            Some(m) => m,
            None => {
                return 0;
            },
        };
        let ghost s = buf@;
        assert(key@ == bkey(needle@, upper_bound));
        let n = buf.len();
        let mut first: usize = 0;
        let mut count: usize = n;
        while count > 0
            invariant
                s == buf@,
                n == s.len(),
                first + count <= n,
                wf_buf(s),
                self@ matches Some(s2) && s2 == s,
                key@ == bkey(needle@, upper_bound),
                forall|q: int| 0 <= q < first ==> probe_before(s, q, key@, upper_bound),
                forall|q: int|
                    first + count <= q < s.len() ==> !probe_before(s, q, key@, upper_bound),
            decreases count,
        {
            let step = count / 2;
            let pos = first + step;
            assert(pos < s.len());
            assert(s[pos as int] == NL ==> pos > 0);
            let line = self.get_line(pos);
            let line_upper = uppercase(line.as_slice());
            assert(line_upper@ == upper_seq(line_at(s, pos as int)));
            let before = if upper_bound {
                !lex_less(key.as_slice(), line_upper.as_slice())
            } else {
                lex_less(line_upper.as_slice(), key.as_slice())
            };
            assert(before == probe_before(s, pos as int, key@, upper_bound));
            if before {
                proof {
                    assert forall|q: int| 0 <= q < pos + 1 implies probe_before(
                        s,
                        q,
                        key@,
                        upper_bound,
                    ) by {
                        if first <= q < pos {
                            lemma_probe_mono(s, key@, upper_bound, q, pos as int);
                        }
                    }
                }
                first = pos + 1;
                count = count - (step + 1);
            } else {
                proof {
                    assert forall|q: int| pos as int <= q < s.len() implies !probe_before(
                        s,
                        q,
                        key@,
                        upper_bound,
                    ) by {
                        if q > pos {
                            lemma_probe_mono(s, key@, upper_bound, pos as int, q);
                        }
                    }
                }
                count = step;
            }
        }
        proof {
            lemma_bisect_from_char(s, key@, upper_bound, 0, first as int);
        }
        first
    }
}

/// Position of the first occurrence of `b` in `s`, or `s.len()` if none.
pub open spec fn first_byte(s: Seq<u8>, b: u8) -> nat
    decreases s.len(),
{
    if s.len() == 0 {
        0
    } else if s[0] == b {
        0
    } else {
        1 + first_byte(s.drop_first(), b)
    }
}

proof fn lemma_first_byte_char(s: Seq<u8>, b: u8, m: int)
    requires
        0 <= m <= s.len(),
        forall|k: int| 0 <= k < m ==> s[k] != b,
        m < s.len() ==> s[m] == b,
    ensures
        first_byte(s, b) == m,
    decreases m,
{
    if s.len() == 0 {
    } else if s[0] == b {
        assert(m == 0);
    } else {
        assert(m > 0);
        lemma_first_byte_char(s.drop_first(), b, m - 1);
    }
}

/// The records of a buffer: the newline-separated pieces, a trailing
/// newline terminating the last record rather than opening an empty one.
pub open spec fn lines_bytes(s: Seq<u8>) -> Seq<Seq<u8>>
    decreases s.len(),
{
    if s.len() == 0 {
        Seq::empty()
    } else {
        let i = first_byte(s, NL) as int;
        if i >= s.len() {
            seq![s]
        } else {
            seq![s.take(i)] + lines_bytes(s.skip(i + 1))
        }
    }
}

/// The identifier field of a record: the bytes before the first space.
pub open spec fn id_of(line: Seq<u8>) -> Seq<u8> {
    line.take(first_byte(line, SPACE) as int)
}

/// The symbol field of a record: the bytes between the first space and the
/// second one, or the end of the record.
pub open spec fn sym_of(line: Seq<u8>) -> Seq<u8> {
    let rest = line.skip(first_byte(line, SPACE) + 1 as int);
    rest.take(first_byte(rest, SPACE) as int)
}

/// Whether a candidate record within the bisected range is kept: it must
/// carry both fields, its identifier must be no shorter than the needle, the
/// identifier's tail past the needle may not reach into a deeper scope
/// (no `:` or `.`), an exact match forbids any tail at all, and a
/// case-sensitive search demands the needle byte for byte.
pub open spec fn keeps(line: Seq<u8>, nb: Seq<u8>, exact: bool, ignore_case: bool) -> bool {
    let id = id_of(line);
    &&& (first_byte(line, SPACE) as int) < line.len()
    &&& nb.len() <= id.len()
    &&& !id.skip(nb.len() as int).contains(58)
    &&& !id.skip(nb.len() as int).contains(46)
    &&& !(exact && id.len() > nb.len())
    &&& (ignore_case || id.take(nb.len() as int) == nb)
}

/// ASCII bytes read as the characters with the same code points.
pub open spec fn chars_of(s: Seq<u8>) -> Seq<char> {
    s.map_values(|b: u8| b as char)
}

/// The result pair a kept record contributes.
pub open spec fn pair_of(line: Seq<u8>) -> (Seq<char>, Seq<char>) {
    (chars_of(id_of(line)), chars_of(sym_of(line)))
}

/// Every record of the range the filter keeps, uncapped, in file order.
pub open spec fn matches_of(
    ls: Seq<Seq<u8>>,
    nb: Seq<u8>,
    exact: bool,
    ignore_case: bool,
) -> Seq<(Seq<char>, Seq<char>)>
    decreases ls.len(),
{
    if ls.len() == 0 {
        Seq::empty()
    } else if keeps(ls[0], nb, exact, ignore_case) {
        seq![pair_of(ls[0])] + matches_of(ls.drop_first(), nb, exact, ignore_case)
    } else {
        matches_of(ls.drop_first(), nb, exact, ignore_case)
    }
}

/// The scan over the bisected range: keep records in file order, stopping as
/// soon as `found` reaches `max` kept records, so that at most `max` are
/// ever returned (a `max` of zero returns none).
pub open spec fn scan_lines(
    ls: Seq<Seq<u8>>,
    nb: Seq<u8>,
    exact: bool,
    ignore_case: bool,
    max: nat,
    found: nat,
) -> Seq<(Seq<char>, Seq<char>)>
    decreases ls.len(),
{
    if found >= max {
        Seq::empty()
    } else if ls.len() == 0 {
        Seq::empty()
    } else if keeps(ls[0], nb, exact, ignore_case) {
        if found + 1 == max {
            seq![pair_of(ls[0])]
        } else {
            seq![pair_of(ls[0])] + scan_lines(ls.drop_first(), nb, exact, ignore_case, max, found + 1)
        }
    } else {
        scan_lines(ls.drop_first(), nb, exact, ignore_case, max, found)
    }
}

/// What a lookup returns on a present buffer: the scan of the records inside
/// the prefix run the two bisections delimit.
pub open spec fn lookup_spec(
    s: Seq<u8>,
    nb: Seq<u8>,
    exact: bool,
    ignore_case: bool,
    max: nat,
) -> Seq<(Seq<char>, Seq<char>)> {
    scan_lines(
        lines_bytes(s.subrange(spec_bisect(s, nb, false), spec_bisect(s, nb, true))),
        nb,
        exact,
        ignore_case,
        max,
        0,
    )
}

/// Every match a lookup would return were no cap given: the kept records of
/// the prefix run the two bisections delimit, in file order.
pub open spec fn lookup_matches(
    s: Seq<u8>,
    nb: Seq<u8>,
    exact: bool,
    ignore_case: bool,
) -> Seq<(Seq<char>, Seq<char>)> {
    matches_of(
        lines_bytes(s.subrange(spec_bisect(s, nb, false), spec_bisect(s, nb, true))),
        nb,
        exact,
        ignore_case,
    )
}

/// The views of a vector of results.
pub open spec fn results_view(rs: Seq<IdentResult>) -> Seq<(Seq<char>, Seq<char>)> {
    rs.map_values(|ir: IdentResult| (ir.id@, ir.symbol@))
}

fn find_byte(buf: &Vec<u8>, from: usize, to: usize, b: u8) -> (r: usize)
    requires
        from <= to && to <= buf@.len(),
    ensures
        from <= r <= to,
        forall|k: int| from <= k < r ==> buf@[k] != b,
        r < to ==> buf@[r as int] == b,
{
    let mut i: usize = from;
    while i < to
        invariant
            from <= i <= to <= buf@.len(),
            forall|k: int| from <= k < i ==> buf@[k] != b,
        decreases to - i,
    {
        if buf[i] == b {
            return i;
        }
        i = i + 1;
    }
    i
}

fn copy_range(buf: &Vec<u8>, from: usize, to: usize) -> (r: Vec<u8>)
    requires
        from <= to && to <= buf@.len(),
    ensures
        r@ == buf@.subrange(from as int, to as int),
{
    let mut out: Vec<u8> = Vec::new();
    let mut k: usize = from;
    while k < to
        invariant
            from <= k <= to <= buf@.len(),
            out@ == buf@.subrange(from as int, k as int),
        decreases to - k,
    {
        out.push(buf[k]);
        proof {
            assert(buf@.subrange(from as int, k + 1 as int) =~= buf@.subrange(
                from as int,
                k as int,
            ).push(buf@[k as int]));
        }
        k = k + 1;
    }
    out
}

fn range_matches(buf: &Vec<u8>, from: usize, pat: &[u8]) -> (r: bool)
    requires
        from + pat@.len() <= buf@.len(),
    ensures
        r == (buf@.subrange(from as int, from + pat@.len()) == pat@),
{
    let ghost sub = buf@.subrange(from as int, from + pat@.len());
    let bn = buf.len();
    let mut k: usize = 0;
    while k < pat.len()
        invariant
            k <= pat@.len(),
            from + pat@.len() <= bn == buf@.len(),
            sub == buf@.subrange(from as int, from + pat@.len()),
            forall|j: int| 0 <= j < k ==> buf@[from + j] == pat@[j],
        decreases pat@.len() - k,
    {
        if buf[from + k] != pat[k] {
            proof {
                assert(sub[k as int] == buf@[from + k]);
            }
            return false;
        }
        k = k + 1;
    }
    proof {
        assert(sub =~= pat@);
    }
    true
}

/// Relies on `String::from_utf8`: bytes below 128 are ASCII, and decode to
/// the string of the characters with the same code points.
#[verifier::external_body]
fn ascii_to_string(v: Vec<u8>) -> (r: String)
    requires
        forall|i: int| 0 <= i < v@.len() ==> v@[i] < 128,
    ensures
        r@ == chars_of(v@),
{
    String::from_utf8(v).unwrap_or_default()
}

impl IdentMap {
    /// Range search: bisect to the run of records whose uppercased line opens
    /// with the uppercased needle, then scan it in file order, filtering by
    /// the suffix, exactness and case rules, up to `max_results` results.
    ///
    /// On an absent buffer the result is empty, and at most `max_results`
    /// results are ever returned: a cap of zero allows none.
    #[verifier::rlimit(100)]
    pub fn lookup(
        &self,
        needle: &str,
        exact_match: bool,
        ignore_case: bool,
        max_results: usize,
    ) -> (r: Vec<IdentResult>)
        requires
            self@ matches Some(s) ==> wf_buf(s),
        ensures
            self@ is None ==> r@.len() == 0,
            self@ matches Some(s) ==> results_view(r@) == lookup_spec(
                s,
                needle.spec_bytes(),
                exact_match,
                ignore_case,
                max_results as nat,
            ),
    {
        let nbytes: &[u8] = needle.as_bytes();
        let buf = match &self.buf {
            Some(m) => m,
            None => {
                return Vec::new();
            },
        };
        let ghost s = buf@;
        let lo = self.bisect(nbytes, false);
        let hi = self.bisect(nbytes, true);
        proof {
            lemma_bisect_le(s, nbytes@);
        }
        if max_results == 0 {
            let empty_out: Vec<IdentResult> = Vec::new();
            proof {
                assert(results_view(empty_out@) =~= Seq::<(Seq<char>, Seq<char>)>::empty());
                assert(lookup_spec(s, needle.spec_bytes(), exact_match, ignore_case, 0)
                    =~= Seq::<(Seq<char>, Seq<char>)>::empty());
            }
            return empty_out;
        }
        let ghost full = lookup_spec(
            s,
            needle.spec_bytes(),
            exact_match,
            ignore_case,
            max_results as nat,
        );
        let mut out: Vec<IdentResult> = Vec::new();
        let mut cur: usize = lo;
        proof {
            assert(results_view(out@) =~= Seq::<(Seq<char>, Seq<char>)>::empty());
            assert(full =~= results_view(out@) + scan_lines(
                lines_bytes(s.subrange(cur as int, hi as int)),
                nbytes@,
                exact_match,
                ignore_case,
                max_results as nat,
                out@.len(),
            ));
        }
        while cur < hi
            invariant
                s == buf@,
                wf_buf(s),
                self@ matches Some(s2) && s2 == s,
                nbytes@ == needle.spec_bytes(),
                lo <= cur <= hi <= s.len(),
                out@.len() < max_results,
                full == lookup_spec(
                    s,
                    needle.spec_bytes(),
                    exact_match,
                    ignore_case,
                    max_results as nat,
                ),
                full == results_view(out@) + scan_lines(
                    lines_bytes(s.subrange(cur as int, hi as int)),
                    nbytes@,
                    exact_match,
                    ignore_case,
                    max_results as nat,
                    out@.len(),
                ),
            decreases hi - cur,
        {
            let ghost t = s.subrange(cur as int, hi as int);
            let ghost found0 = out@.len();
            let e = find_byte(buf, cur, hi, NL);
            let next: usize = if e < hi {
                e + 1
            } else {
                hi
            };
            let ghost line = s.subrange(cur as int, e as int);
            proof {
                assert forall|k: int| 0 <= k < e - cur implies t[k] != NL by {
                    assert(t[k] == s[cur + k]);
                }
                lemma_first_byte_char(t, NL, e - cur);
                if e < hi {
                    assert(t.take(e - cur) =~= line);
                    assert(t.skip(e - cur + 1) =~= s.subrange(next as int, hi as int));
                } else {
                    assert(t =~= line);
                    assert(s.subrange(next as int, hi as int) =~= Seq::<u8>::empty());
                }
                assert(lines_bytes(t) =~~= seq![line] + lines_bytes(
                    s.subrange(next as int, hi as int),
                ));
            }
            // split the record into its two fields
            let sp = find_byte(buf, cur, e, SPACE);
            let has_space = sp < e;
            let nlen = nbytes.len();
            let idlen = sp - cur;
            proof {
                assert forall|k: int| 0 <= k < sp - cur implies line[k] != SPACE by {
                    assert(line[k] == s[cur + k]);
                }
                if sp < e {
                    assert(line[sp - cur] == s[sp as int]);
                }
                lemma_first_byte_char(line, SPACE, sp - cur);
                assert(id_of(line) =~= s.subrange(cur as int, sp as int));
            }
            let mut keep = has_space && idlen >= nlen;
            if keep {
                let ghost id = id_of(line);
                let ghost suf = id.skip(nlen as int);
                proof {
                    assert(suf =~= s.subrange(cur + nlen, sp as int));
                }
                let suf_from = cur + nlen;
                let c1 = find_byte(buf, suf_from, sp, 58);
                let c2 = find_byte(buf, suf_from, sp, 46);
                proof {
                    if c1 < sp {
                        assert(suf[c1 - suf_from] == s[c1 as int]);
                        assert(suf.contains(58));
                    } else {
                        assert forall|j: int| 0 <= j < suf.len() implies suf[j] != 58 by {
                            assert(suf[j] == s[suf_from + j]);
                        }
                        assert(!suf.contains(58));
                    }
                    if c2 < sp {
                        assert(suf[c2 - suf_from] == s[c2 as int]);
                        assert(suf.contains(46));
                    } else {
                        assert forall|j: int| 0 <= j < suf.len() implies suf[j] != 46 by {
                            assert(suf[j] == s[suf_from + j]);
                        }
                        assert(!suf.contains(46));
                    }
                }
                keep = c1 == sp && c2 == sp;
                if keep && exact_match && idlen > nlen {
                    keep = false;
                }
                if keep && !ignore_case {
                    proof {
                        assert(id_of(line).take(nlen as int) =~= s.subrange(
                            cur as int,
                            cur + nlen,
                        ));
                    }
                    if !range_matches(buf, cur, nbytes) {
                        keep = false;
                    }
                }
            }
            assert(keep == keeps(line, nbytes@, exact_match, ignore_case));
            if keep {
                let sp2 = find_byte(buf, sp + 1, e, SPACE);
                proof {
                    let rest = line.skip(sp - cur + 1);
                    assert(rest =~= s.subrange(sp + 1, e as int));
                    assert forall|k: int| 0 <= k < sp2 - (sp + 1) implies rest[k] != SPACE by {
                        assert(rest[k] == s[sp + 1 + k]);
                    }
                    if sp2 < e {
                        assert(rest[sp2 - (sp + 1)] == s[sp2 as int]);
                    }
                    lemma_first_byte_char(rest, SPACE, sp2 - (sp + 1));
                    assert(sym_of(line) =~= s.subrange(sp + 1, sp2 as int));
                }
                let idv = copy_range(buf, cur, sp);
                let symv = copy_range(buf, sp + 1, sp2);
                let id_string = ascii_to_string(idv);
                let symbol_string = ascii_to_string(symv);
                let ghost out0 = out@;
                let ir = IdentResult { id: id_string, symbol: symbol_string };
                proof {
                    assert((ir.id@, ir.symbol@) == pair_of(line));
                }
                out.push(ir);
                proof {
                    assert(results_view(out@) =~= results_view(out0).push(pair_of(line)));
                }
                if out.len() == max_results {
                    proof {
                        assert(scan_lines(
                            lines_bytes(t),
                            nbytes@,
                            exact_match,
                            ignore_case,
                            max_results as nat,
                            found0,
                        ) =~= seq![pair_of(line)]);
                        assert(full =~= results_view(out@));
                    }
                    return out;
                }
                proof {
                    let rest_scan = scan_lines(
                        lines_bytes(s.subrange(next as int, hi as int)),
                        nbytes@,
                        exact_match,
                        ignore_case,
                        max_results as nat,
                        found0 + 1,
                    );
                    assert((seq![line] + lines_bytes(s.subrange(next as int, hi as int)))
                        .drop_first() =~= lines_bytes(s.subrange(next as int, hi as int)));
                    assert(scan_lines(
                        lines_bytes(t),
                        nbytes@,
                        exact_match,
                        ignore_case,
                        max_results as nat,
                        found0,
                    ) =~= seq![pair_of(line)] + rest_scan);
                    assert(results_view(out0) + (seq![pair_of(line)] + rest_scan) =~= results_view(
                        out@,
                    ) + rest_scan);
                }
            } else {
                proof {
                    assert((seq![line] + lines_bytes(s.subrange(next as int, hi as int)))
                        .drop_first() =~= lines_bytes(s.subrange(next as int, hi as int)));
                    assert(scan_lines(
                        lines_bytes(t),
                        nbytes@,
                        exact_match,
                        ignore_case,
                        max_results as nat,
                        found0,
                    ) =~= scan_lines(
                        lines_bytes(s.subrange(next as int, hi as int)),
                        nbytes@,
                        exact_match,
                        ignore_case,
                        max_results as nat,
                        found0,
                    ));
                }
            }
            cur = next;
        }
        proof {
            assert(s.subrange(cur as int, hi as int) =~= Seq::<u8>::empty());
            assert(full =~= results_view(out@));
        }
        out
    }
}

proof fn lemma_line_end_scan(s: Seq<u8>, p: int)
    requires
        0 <= p <= s.len(),
    ensures
        p <= line_end(s, p) <= s.len(),
        forall|k: int| p <= k < line_end(s, p) ==> s[k] != NL,
    decreases s.len() - p,
{
    if p < s.len() && s[p] != NL {
        lemma_line_end_scan(s, p + 1);
    }
}

proof fn lemma_bisect_sides(s: Seq<u8>, key: Seq<u8>, upper_bound: bool)
    requires
        wf_buf(s),
    ensures
        forall|q: int|
            0 <= q < bisect_from(s, key, upper_bound, 0) ==> probe_before(s, q, key, upper_bound),
        forall|q: int|
            bisect_from(s, key, upper_bound, 0) <= q < s.len() ==> !probe_before(
                s,
                q,
                key,
                upper_bound,
            ),
{
    lemma_bisect_from_props(s, key, upper_bound, 0);
    let r = bisect_from(s, key, upper_bound, 0);
    assert forall|q: int| r <= q < s.len() implies !probe_before(s, q, key, upper_bound) by {
        if q > r {
            lemma_probe_mono(s, key, upper_bound, r, q);
        }
    }
}

/// The uppercase form of any line of a well-formed buffer stays below the
/// sentinel byte.
proof fn lemma_line_at_bytes(s: Seq<u8>, p: int)
    requires
        wf_buf(s),
        0 <= p < s.len(),
    ensures
        forall|i: int|
            0 <= i < upper_seq(line_at(s, p)).len() ==> #[trigger] upper_seq(line_at(s, p))[i]
                < 126,
{
    let q = snap(s, p);
    lemma_line_start(s, q);
    lemma_line_end_scan(s, q);
    let a = line_start(s, q);
    let b = line_end(s, q);
    assert forall|i: int| 0 <= i < upper_seq(line_at(s, p)).len() implies #[trigger] upper_seq(
        line_at(s, p),
    )[i] < 126 by {
        assert(line_at(s, p)[i] == s[a + i]);
        assert(s[a + i] != NL);
        assert(upper_seq(line_at(s, p))[i] == crate::order::upper_byte(line_at(s, p)[i]));
    }
}

/// For a well-formed index, the two bisections are ordered and delimit
/// exactly the records whose uppercase form opens with the needle's
/// uppercase form.
pub proof fn lemma_bisect_range(s: Seq<u8>, nb: Seq<u8>)
    requires
        wf_buf(s),
    ensures
        0 <= spec_bisect(s, nb, false) <= spec_bisect(s, nb, true) <= s.len(),
        forall|q: int|
            spec_bisect(s, nb, false) <= q < spec_bisect(s, nb, true) ==> upper_seq(
                nb,
            ).is_prefix_of(#[trigger] upper_seq(line_at(s, q))),
        forall|q: int|
            (0 <= q < spec_bisect(s, nb, false) || spec_bisect(s, nb, true) <= q < s.len())
                ==> !upper_seq(nb).is_prefix_of(#[trigger] upper_seq(line_at(s, q))),
{
    lemma_bisect_le(s, nb);
    lemma_bisect_sides(s, bkey(nb, false), false);
    lemma_bisect_sides(s, bkey(nb, true), true);
    let lo = spec_bisect(s, nb, false);
    let hi = spec_bisect(s, nb, true);
    let key = upper_seq(nb);
    assert(bkey(nb, true) == key.push(126));
    assert forall|q: int| lo <= q < hi implies key.is_prefix_of(
        #[trigger] upper_seq(line_at(s, q)),
    ) by {
        let l = upper_seq(line_at(s, q));
        lemma_line_at_bytes(s, q);
        crate::order::lemma_between_iff_prefix(key, l);
        assert(!probe_before(s, q, bkey(nb, false), false));
        assert(probe_before(s, q, bkey(nb, true), true));
    }
    assert forall|q: int|
        (0 <= q < lo || hi <= q < s.len()) implies !key.is_prefix_of(
        #[trigger] upper_seq(line_at(s, q)),
    ) by {
        let l = upper_seq(line_at(s, q));
        lemma_line_at_bytes(s, q);
        crate::order::lemma_between_iff_prefix(key, l);
        if q < lo {
            assert(probe_before(s, q, bkey(nb, false), false));
            if key.is_prefix_of(l) {
                lemma_prefix_le(key, l);
            }
        } else {
            assert(!probe_before(s, q, bkey(nb, true), true));
        }
    }
}

/// Whether a result pair is the pair of some record of `ls` that the filter
/// keeps.
pub open spec fn from_kept_line(
    p: (Seq<char>, Seq<char>),
    ls: Seq<Seq<u8>>,
    nb: Seq<u8>,
    exact: bool,
    ignore_case: bool,
) -> bool {
    exists|j: int|
        0 <= j < ls.len() && keeps(#[trigger] ls[j], nb, exact, ignore_case) && p == pair_of(ls[j])
}

/// Whether a result pair obeys the filter rules for needle `nb`: the
/// identifier is at least as long as the needle, its tail past the needle
/// holds no `:` and no `.`, an exact search allows no tail at all, and a
/// case-sensitive search demands the needle's own bytes at the front.
pub open spec fn clean_result(
    p: (Seq<char>, Seq<char>),
    nb: Seq<u8>,
    exact: bool,
    ignore_case: bool,
) -> bool {
    exists|idb: Seq<u8>, symb: Seq<u8>|
        {
            &&& p == (#[trigger] chars_of(idb), #[trigger] chars_of(symb))
            &&& nb.len() <= idb.len()
            &&& !idb.skip(nb.len() as int).contains(58)
            &&& !idb.skip(nb.len() as int).contains(46)
            &&& (exact ==> idb.len() == nb.len())
            &&& (!ignore_case ==> idb.take(nb.len() as int) == nb)
        }
}

proof fn lemma_scan_sound(
    ls: Seq<Seq<u8>>,
    nb: Seq<u8>,
    exact: bool,
    ignore_case: bool,
    max: nat,
    found: nat,
)
    ensures
        forall|x: int|
            0 <= x < scan_lines(ls, nb, exact, ignore_case, max, found).len()
                ==> from_kept_line(
                #[trigger] scan_lines(ls, nb, exact, ignore_case, max, found)[x],
                ls,
                nb,
                exact,
                ignore_case,
            ),
    decreases ls.len(),
{
    if ls.len() == 0 {
    } else {
        let rest = ls.drop_first();
        if keeps(ls[0], nb, exact, ignore_case) && found + 1 == max {
            assert forall|x: int|
                0 <= x < scan_lines(ls, nb, exact, ignore_case, max, found).len()
                    implies from_kept_line(
                #[trigger] scan_lines(ls, nb, exact, ignore_case, max, found)[x],
                ls,
                nb,
                exact,
                ignore_case,
            ) by {
                assert(scan_lines(ls, nb, exact, ignore_case, max, found)[x] == pair_of(ls[0]));
            }
        } else if keeps(ls[0], nb, exact, ignore_case) {
            lemma_scan_sound(rest, nb, exact, ignore_case, max, found + 1);
            assert forall|x: int|
                0 <= x < scan_lines(ls, nb, exact, ignore_case, max, found).len()
                    implies from_kept_line(
                #[trigger] scan_lines(ls, nb, exact, ignore_case, max, found)[x],
                ls,
                nb,
                exact,
                ignore_case,
            ) by {
                if x == 0 {
                    assert(scan_lines(ls, nb, exact, ignore_case, max, found)[0] == pair_of(
                        ls[0],
                    ));
                } else {
                    let p = scan_lines(ls, nb, exact, ignore_case, max, found)[x];
                    assert(p == scan_lines(rest, nb, exact, ignore_case, max, found + 1)[x - 1]);
                    assert(from_kept_line(p, rest, nb, exact, ignore_case));
                    let j0 = choose|j: int|
                        0 <= j < rest.len() && keeps(#[trigger] rest[j], nb, exact, ignore_case)
                            && p == pair_of(rest[j]);
                    assert(rest[j0] == ls[j0 + 1]);
                    assert(keeps(ls[j0 + 1], nb, exact, ignore_case) && p == pair_of(ls[j0 + 1]));
                }
            }
        } else {
            lemma_scan_sound(rest, nb, exact, ignore_case, max, found);
            assert forall|x: int|
                0 <= x < scan_lines(ls, nb, exact, ignore_case, max, found).len()
                    implies from_kept_line(
                #[trigger] scan_lines(ls, nb, exact, ignore_case, max, found)[x],
                ls,
                nb,
                exact,
                ignore_case,
            ) by {
                let p = scan_lines(ls, nb, exact, ignore_case, max, found)[x];
                assert(p == scan_lines(rest, nb, exact, ignore_case, max, found)[x]);
                assert(from_kept_line(p, rest, nb, exact, ignore_case));
                let j0 = choose|j: int|
                    0 <= j < rest.len() && keeps(#[trigger] rest[j], nb, exact, ignore_case) && p
                        == pair_of(rest[j]);
                assert(rest[j0] == ls[j0 + 1]);
                assert(keeps(ls[j0 + 1], nb, exact, ignore_case) && p == pair_of(ls[j0 + 1]));
            }
        }
    }
}

/// Every pair a lookup returns obeys the suffix-rejection, exactness and
/// case rules.
pub proof fn lemma_suffix_rejection(
    s: Seq<u8>,
    nb: Seq<u8>,
    exact: bool,
    ignore_case: bool,
    max: nat,
)
    ensures
        forall|x: int|
            0 <= x < lookup_spec(s, nb, exact, ignore_case, max).len() ==> clean_result(
                #[trigger] lookup_spec(s, nb, exact, ignore_case, max)[x],
                nb,
                exact,
                ignore_case,
            ),
{
    let ls = lines_bytes(s.subrange(spec_bisect(s, nb, false), spec_bisect(s, nb, true)));
    lemma_scan_sound(ls, nb, exact, ignore_case, max, 0);
    assert forall|x: int|
        0 <= x < lookup_spec(s, nb, exact, ignore_case, max).len() implies clean_result(
        #[trigger] lookup_spec(s, nb, exact, ignore_case, max)[x],
        nb,
        exact,
        ignore_case,
    ) by {
        let p = lookup_spec(s, nb, exact, ignore_case, max)[x];
        assert(from_kept_line(p, ls, nb, exact, ignore_case));
        let j0 = choose|j: int|
            0 <= j < ls.len() && keeps(#[trigger] ls[j], nb, exact, ignore_case) && p == pair_of(
                ls[j],
            );
        let idb = id_of(ls[j0]);
        let symb = sym_of(ls[j0]);
        assert(p == (chars_of(idb), chars_of(symb)) && nb.len() <= idb.len() && !idb.skip(
            nb.len() as int,
        ).contains(58) && !idb.skip(nb.len() as int).contains(46) && (exact ==> idb.len()
            == nb.len()) && (!ignore_case ==> idb.take(nb.len() as int) == nb));
    }
}

proof fn lemma_scan_cap_prefix(
    ls: Seq<Seq<u8>>,
    nb: Seq<u8>,
    exact: bool,
    ignore_case: bool,
    max: nat,
    found: nat,
)
    requires
        found < max,
    ensures
        scan_lines(ls, nb, exact, ignore_case, max, found).len() <= max - found,
        scan_lines(ls, nb, exact, ignore_case, max, found).is_prefix_of(
            matches_of(ls, nb, exact, ignore_case),
        ),
        scan_lines(ls, nb, exact, ignore_case, max, found).len() == vstd::math::min(
            max - found,
            matches_of(ls, nb, exact, ignore_case).len() as int,
        ),
    decreases ls.len(),
{
    if ls.len() == 0 {
    } else {
        let rest = ls.drop_first();
        let scm = scan_lines(ls, nb, exact, ignore_case, max, found);
        let m0 = matches_of(ls, nb, exact, ignore_case);
        if keeps(ls[0], nb, exact, ignore_case) {
            if found + 1 == max {
                assert(scm =~= seq![pair_of(ls[0])]);
                assert(scm.is_prefix_of(m0)) by {
                    assert(m0.subrange(0, 1) =~= scm);
                }
            } else {
                lemma_scan_cap_prefix(rest, nb, exact, ignore_case, max, found + 1);
                let rm = scan_lines(rest, nb, exact, ignore_case, max, found + 1);
                let r0 = matches_of(rest, nb, exact, ignore_case);
                assert(rm =~= r0.subrange(0, rm.len() as int));
                assert(scm =~= seq![pair_of(ls[0])] + rm);
                assert(m0 =~= seq![pair_of(ls[0])] + r0);
                assert(scm =~= m0.subrange(0, scm.len() as int));
            }
        } else {
            lemma_scan_cap_prefix(rest, nb, exact, ignore_case, max, found);
        }
    }
}

/// The cap bounds the result count for every `max_results`, including zero,
/// and what is returned is exactly the first `min(max_results, total)`
/// matches, in file (hence sorted) order.
pub proof fn lemma_result_cap(s: Seq<u8>, nb: Seq<u8>, exact: bool, ignore_case: bool, max: nat)
    ensures
        lookup_spec(s, nb, exact, ignore_case, max).len() <= max,
        lookup_spec(s, nb, exact, ignore_case, max).is_prefix_of(
            lookup_matches(s, nb, exact, ignore_case),
        ),
        lookup_spec(s, nb, exact, ignore_case, max).len() == vstd::math::min(
            max as int,
            lookup_matches(s, nb, exact, ignore_case).len() as int,
        ),
{
    let ls = lines_bytes(s.subrange(spec_bisect(s, nb, false), spec_bisect(s, nb, true)));
    if max == 0 {
        assert(lookup_spec(s, nb, exact, ignore_case, max) =~= Seq::<(Seq<char>, Seq<char>)>::empty());
        assert(lookup_spec(s, nb, exact, ignore_case, max).is_prefix_of(
            lookup_matches(s, nb, exact, ignore_case),
        )) by {
            assert(matches_of(ls, nb, exact, ignore_case).subrange(0, 0)
                =~= Seq::<(Seq<char>, Seq<char>)>::empty());
        }
    } else {
        lemma_scan_cap_prefix(ls, nb, exact, ignore_case, max, 0);
    }
}

/// Substitute demangled names for display, as the search results are
/// returned: where the demangler changed a symbol, the demangled form
/// replaces the identifier of the pair; where it did not (or failed and fell
/// back to the input), the identifier stays.
pub fn apply_demangling(results: Vec<IdentResult>, demangled: Vec<String>) -> (r: Vec<
    IdentResult,
>)
    requires
        demangled@.len() == results@.len(),
    ensures
        r@.len() == results@.len(),
        forall|k: int|
            0 <= k < r@.len() ==> {
                &&& (#[trigger] r@[k]).symbol@ == results@[k].symbol@
                &&& r@[k].id@ == if demangled@[k]@ != results@[k].symbol@ {
                    demangled@[k]@
                } else {
                    results@[k].id@
                }
            },
{
    let mut out: Vec<IdentResult> = Vec::new();
    let n = results.len();
    let mut i: usize = 0;
    while i < n
        invariant
            n == results@.len() == demangled@.len(),
            i <= n,
            out@.len() == i,
            forall|k: int|
                0 <= k < i ==> {
                    &&& (#[trigger] out@[k]).symbol@ == results@[k].symbol@
                    &&& out@[k].id@ == if demangled@[k]@ != results@[k].symbol@ {
                        demangled@[k]@
                    } else {
                        results@[k].id@
                    }
                },
        decreases n - i,
    {
        let ir = &results[i];
        let d = &demangled[i];
        let changed = !crate::order::str_eq(d.as_str(), ir.symbol.as_str());
        let display = if changed {
            d.clone()
        } else {
            ir.id.clone()
        };
        out.push(IdentResult { id: display, symbol: ir.symbol.clone() });
        i = i + 1;
    }
    out
}

proof fn lemma_line_start_of(s: Seq<u8>, ls: int, p: int)
    requires
        0 <= ls <= p <= s.len(),
        ls == 0 || s[ls - 1] == NL,
        forall|k: int| ls <= k < p ==> s[k] != NL,
    ensures
        line_start(s, p) == ls,
    decreases p - ls,
{
    if p > ls {
        lemma_line_start_of(s, ls, p - 1);
    }
}

proof fn lemma_line_end_of(s: Seq<u8>, p: int, le_: int)
    requires
        0 <= p <= le_ <= s.len(),
        le_ == s.len() || s[le_] == NL,
        forall|k: int| p <= k < le_ ==> s[k] != NL,
    ensures
        line_end(s, p) == le_,
    decreases le_ - p,
{
    if p < le_ {
        lemma_line_end_of(s, p + 1, le_);
    }
}

/// Every position within one record sees that record as its line.
proof fn lemma_line_at_const(s: Seq<u8>, ls: int, le_: int, q: int)
    requires
        0 <= ls <= q <= le_ < s.len(),
        ls < le_,
        ls == 0 || s[ls - 1] == NL,
        s[le_] == NL,
        forall|k: int| ls <= k < le_ ==> s[k] != NL,
    ensures
        line_at(s, q) == s.subrange(ls, le_),
{
    let q2 = snap(s, q);
    if q == le_ {
        assert(q2 == q - 1);
    } else {
        assert(s[q] != NL);
        assert(q2 == q);
    }
    lemma_line_start_of(s, ls, q2);
    lemma_line_end_of(s, q2, le_);
}

/// Validate the index-file invariant over the whole buffer, as the load-time
/// debug pass: newline-terminated non-empty lines of printable bytes below
/// the sentinel, each line carrying both of its space-separated fields,
/// adjacent lines ordered by their uppercase form. Returns exactly whether
/// the buffer is well-formed.
#[verifier::rlimit(100)]
pub fn validate_index(buf: &Vec<u8>) -> (r: bool)
    ensures
        r == wf_buf(buf@),
{
    let ghost s = buf@;
    let n = buf.len();
    if n == 0 {
        assert(wf_buf(s));
        return true;
    }
    if buf[n - 1] != NL {
        assert(!wf_buf(s));
        return false;
    }
    let mut pos: usize = 0;
    let mut prev: Vec<u8> = Vec::new();
    while pos < n
        invariant
            s == buf@,
            n == s.len(),
            0 < n,
            s[n - 1] == NL,
            pos <= n,
            pos == 0 || s[pos - 1] == NL,
            forall|i: int| 0 <= i < pos ==> (#[trigger] s[i] == NL || (32 <= s[i] && s[i] < 126)),
            forall|i: int| 0 <= i < pos && #[trigger] s[i] == NL ==> i > 0 && s[i - 1] != NL,
            forall|i: int|
                0 <= i < pos ==> first_byte(#[trigger] line_at(s, i), SPACE) < line_at(
                    s,
                    i,
                ).len(),
            forall|i: int, j: int|
                0 <= i <= j < pos ==> #[trigger] lex_le(
                    upper_seq(line_at(s, i)),
                    upper_seq(line_at(s, j)),
                ),
            pos > 0 ==> prev@ == upper_seq(line_at(s, pos - 1)),
        decreases n - pos,
    {
        let e = find_byte(buf, pos, n, NL);
        proof {
            if e == n {
                assert(s[n - 1] != NL);
            }
        }
        assert(e < n);
        if e == pos {
            proof {
                if wf_buf(s) {
                    assert(s[pos as int] == NL);
                    assert(pos > 0 && s[pos - 1] != NL);
                }
            }
            return false;
        }
        let mut k: usize = pos;
        while k < e
            invariant
                s == buf@,
                n == s.len(),
                pos <= k <= e < n,
                pos < e,
                forall|i: int| pos <= i < e ==> s[i] != NL,
                forall|i: int| pos <= i < k ==> 32 <= #[trigger] s[i] && s[i] < 126,
            decreases e - k,
        {
            let b = buf[k];
            if b < 32 || b >= 126 {
                proof {
                    if wf_buf(s) {
                        assert(s[k as int] == NL || (32 <= s[k as int] && s[k as int] < 126));
                    }
                }
                return false;
            }
            k = k + 1;
        }
        let line = copy_range(buf, pos, e);
        let cur = uppercase(line.as_slice());
        proof {
            lemma_line_at_const(s, pos as int, e as int, pos as int);
        }
        let sp = find_byte(buf, pos, e, SPACE);
        if sp == e {
            proof {
                assert forall|k: int| 0 <= k < line@.len() implies line@[k] != SPACE by {
                    assert(line@[k] == s[pos + k]);
                }
                lemma_first_byte_char(line@, SPACE, line@.len() as int);
                if wf_buf(s) {
                    assert(first_byte(line_at(s, pos as int), SPACE) < line_at(
                        s,
                        pos as int,
                    ).len());
                }
            }
            return false;
        }
        proof {
            assert forall|k: int| 0 <= k < sp - pos implies line@[k] != SPACE by {
                assert(line@[k] == s[pos + k]);
            }
            assert(line@[sp - pos] == s[sp as int]);
            lemma_first_byte_char(line@, SPACE, sp - pos);
        }
        if pos > 0 {
            if lex_less(cur.as_slice(), prev.as_slice()) {
                proof {
                    if wf_buf(s) {
                        assert(lex_le(
                            upper_seq(line_at(s, pos - 1)),
                            upper_seq(line_at(s, pos as int)),
                        ));
                    }
                }
                return false;
            }
        }
        proof {
            assert forall|i: int| 0 <= i < e + 1 implies first_byte(
                #[trigger] line_at(s, i),
                SPACE,
            ) < line_at(s, i).len() by {
                if i >= pos {
                    lemma_line_at_const(s, pos as int, e as int, i);
                }
            }
            assert forall|i: int, j: int| 0 <= i <= j < e + 1 implies #[trigger] lex_le(
                upper_seq(line_at(s, i)),
                upper_seq(line_at(s, j)),
            ) by {
                if j >= pos {
                    lemma_line_at_const(s, pos as int, e as int, j);
                    if i >= pos {
                        lemma_line_at_const(s, pos as int, e as int, i);
                        lemma_lex_total(cur@, cur@);
                    } else {
                        assert(lex_le(
                            upper_seq(line_at(s, i)),
                            upper_seq(line_at(s, pos - 1)),
                        ));
                        crate::order::lemma_lex_le_trans(
                            upper_seq(line_at(s, i)),
                            prev@,
                            cur@,
                        );
                    }
                }
            }
        }
        proof {
            lemma_line_at_const(s, pos as int, e as int, e as int);
        }
        prev = cur;
        pos = e + 1;
    }
    proof {
        assert(wf_buf(s));
    }
    true
}

} // verus!
