//! Release identifiers: `MAJOR.MINOR[.PATCH][TAG]`, where the tag is either
//! `-` followed by tag bytes, or tag bytes starting with a letter
//! (`1.21.0`, `1.20`, `1.21rc2`, `1.22.0-beta.1`). Tag bytes are ASCII
//! letters, digits and `.`.

use vstd::prelude::*;
use crate::error::Error;

verus! {

pub open spec fn is_digit(b: u8) -> bool {
    48 <= b && b <= 57
}

pub open spec fn is_alpha(b: u8) -> bool {
    (65 <= b && b <= 90) || (97 <= b && b <= 122)
}

pub open spec fn is_tag_byte(b: u8) -> bool {
    is_digit(b) || is_alpha(b) || b == 46
}

/// The number that a run of decimal digits denotes.
pub open spec fn digits_value(s: Seq<u8>) -> nat
    decreases s.len(),
{
    if s.len() == 0 {
        0
    } else {
        digits_value(s.drop_last()) * 10 + (s.last() - 48) as nat
    }
}

/// The end of the run of digits that starts at `i`.
pub open spec fn run_end(s: Seq<u8>, i: int) -> int
    decreases s.len() - i,
{
    if 0 <= i < s.len() && is_digit(s[i]) {
        run_end(s, i + 1)
    } else {
        i
    }
}

/// A well-formed tag: empty, `-` then tag bytes, or tag bytes led by a letter.
pub open spec fn valid_tag(t: Seq<u8>) -> bool {
    t.len() == 0 || (t[0] == 45 && t.len() > 1 && forall|i: int| 1 <= i < t.len() ==> is_tag_byte(#[trigger] t[i]))
        || (is_alpha(t[0]) && forall|i: int| 0 <= i < t.len() ==> is_tag_byte(#[trigger] t[i]))
}

/// The mathematical value of a release identifier.
pub struct ReleaseView {
    pub major: nat,
    pub minor: nat,
    pub patch: Option<nat>,
    pub tag: Seq<u8>,
}

pub open spec fn fits_u64(n: nat) -> bool {
    n <= u64::MAX
}

/// What the text `s` denotes as a release identifier, if it is one.
pub open spec fn spec_parse(s: Seq<u8>) -> Option<ReleaseView> {
    let e1 = run_end(s, 0);
    let e2 = run_end(s, e1 + 1);
    let has_patch = e2 < s.len() && s[e2] == 46;
    let e3 = if has_patch { run_end(s, e2 + 1) } else { e2 };
    let v = ReleaseView {
        major: digits_value(s.subrange(0, e1)),
        minor: digits_value(s.subrange(e1 + 1, e2)),
        patch: if has_patch { Some(digits_value(s.subrange(e2 + 1, e3))) } else { None },
        tag: s.subrange(e3, s.len() as int),
    };
    if 0 < e1 && e1 < s.len() && s[e1] == 46 && e1 + 1 < e2 && (!has_patch || e2 + 1 < e3)
        && valid_tag(v.tag) && fits_u64(v.major) && fits_u64(v.minor)
        && (v.patch is Some ==> fits_u64(v.patch->0)) {
        Some(v)
    } else {
        None
    }
}

/// A structured, totally ordered release identifier.
#[derive(Debug, Clone, PartialEq, Eq)]
pub struct ReleaseIdentifier {
    pub major: u64,
    pub minor: u64,
    pub patch: Option<u64>,
    pub tag: Vec<u8>,
}

impl View for ReleaseIdentifier {
    type V = ReleaseView;

    open spec fn view(&self) -> ReleaseView {
        ReleaseView {
            major: self.major as nat,
            minor: self.minor as nat,
            patch: match self.patch {
                Some(p) => Some(p as nat),
                None => None,
            },
            tag: self.tag@,
        }
    }
}

proof fn lemma_run_end_bounds(s: Seq<u8>, i: int)
    requires
        0 <= i,
    ensures
        i <= run_end(s, i),
        i <= s.len() ==> run_end(s, i) <= s.len(),
        forall|k: int| i <= k < run_end(s, i) ==> is_digit(#[trigger] s[k]),
        run_end(s, i) < s.len() ==> !is_digit(s[run_end(s, i)]),
    decreases s.len() - i,
{
    if 0 <= i < s.len() && is_digit(s[i]) {
        lemma_run_end_bounds(s, i + 1);
    }
}

/// Scans the digit run at `start`; `None` when its value exceeds `u64`.
fn scan_number(s: &[u8], start: usize) -> (r: (usize, Option<u64>))
    requires
        start <= s@.len(),
    ensures
        r.0 == run_end(s@, start as int),
        r.1 is Some ==> r.1->0 as nat == digits_value(s@.subrange(start as int, r.0 as int)),
        r.1 is None <==> !fits_u64(digits_value(s@.subrange(start as int, r.0 as int))),
{
    let mut i: usize = start;
    let mut n: u64 = 0;
    let mut overflow: bool = false;
    proof {
        lemma_run_end_bounds(s@, start as int);
        assert(s@.subrange(start as int, start as int) =~= Seq::<u8>::empty());
    }
    while i < s.len() && 48 <= s[i] && s[i] <= 57
        invariant
            start <= i <= s@.len(),
            run_end(s@, i as int) == run_end(s@, start as int),
            forall|k: int| start <= k < i ==> is_digit(#[trigger] s@[k]),
            !overflow ==> n as nat == digits_value(s@.subrange(start as int, i as int)),
            overflow ==> !fits_u64(digits_value(s@.subrange(start as int, i as int))),
        decreases s@.len() - i,
    {
        let d: u64 = (s[i] - 48) as u64;
        let ghost prev = s@.subrange(start as int, i as int);
        let ghost next = s@.subrange(start as int, i + 1);
        proof {
            assert(next.drop_last() =~= prev);
            assert(digits_value(next) == digits_value(prev) * 10 + d);
        }
        if !overflow {
            if n > (u64::MAX - d) / 10 {
                overflow = true;
                assert(digits_value(next) > u64::MAX) by (nonlinear_arith)
                    requires
                        n > (u64::MAX - d) / 10,
                        digits_value(next) == n * 10 + d,
                        d <= 9,
                ;
            } else {
                assert(n * 10 + d <= u64::MAX) by (nonlinear_arith)
                    requires
                        n <= (u64::MAX - d) / 10,
                        d <= 9,
                ;
                n = n * 10 + d;
            }
        } else {
            assert(digits_value(next) >= digits_value(prev)) by (nonlinear_arith)
                requires
                    digits_value(next) == digits_value(prev) * 10 + d,
            ;
        }
        i = i + 1;
    }
    if overflow {
        (i, None)
    } else {
        (i, Some(n))
    }
}


/// Whether the bytes of `t` from `start` on form a well-formed tag.
fn check_tag(t: &[u8], start: usize) -> (r: bool)
    requires
        start <= t@.len(),
    ensures
        r == valid_tag(t@.subrange(start as int, t@.len() as int)),
{
    let ghost g = t@.subrange(start as int, t@.len() as int);
    if start == t.len() {
        return true;
    }
    let first = t[start];
    let dash = first == 45;
    assert(g[0] == first);
    assert(g.len() == t@.len() - start);
    if !dash && !((65 <= first && first <= 90) || (97 <= first && first <= 122)) {
        return false;
    }
    if dash && start + 1 == t.len() {
        return false;
    }
    let mut i: usize = if dash { start + 1 } else { start };
    while i < t.len()
        invariant
            start <= i <= t@.len(),
            g == t@.subrange(start as int, t@.len() as int),
            g[0] == first,
            dash == (first == 45),
            g.len() == t@.len() - start,
            g.len() > 0,
            dash ==> g.len() > 1 && i > start,
            forall|k: int| (if dash { 1int } else { 0int }) <= k < i - start ==> is_tag_byte(#[trigger] g[k]),
        decreases t@.len() - i,
    {
        let b = t[i];
        if !((48 <= b && b <= 57) || (65 <= b && b <= 90) || (97 <= b && b <= 122) || b == 46) {
            assert(g[i - start] == b);
            assert(!is_tag_byte(g[i - start]));
            if dash {
                assert(!(forall|k: int| 1 <= k < g.len() ==> is_tag_byte(#[trigger] g[k])));
            } else {
                assert(g[0] != 45);
                assert(!(forall|k: int| 0 <= k < g.len() ==> is_tag_byte(#[trigger] g[k])));
            }
            assert(!valid_tag(g));
            return false;
        }
        i = i + 1;
    }
    true
}

/// Parses a release identifier from its text.
pub fn parse_version(s: &[u8]) -> (r: Result<ReleaseIdentifier, Error>)
    ensures
        match r {
            Ok(v) => spec_parse(s@) == Some(v@),
            Err(e) => spec_parse(s@) is None && e == Error::VersionParse,
        },
{
    let (e1, major) = scan_number(s, 0);
    proof {
        lemma_run_end_bounds(s@, 0);
    }
    if e1 == 0 || e1 >= s.len() || s[e1] != 46 {
        return Err(Error::VersionParse);
    }
    let (e2, minor) = scan_number(s, e1 + 1);
    proof {
        lemma_run_end_bounds(s@, e1 + 1);
    }
    if e2 == e1 + 1 {
        return Err(Error::VersionParse);
    }
    let has_patch = e2 < s.len() && s[e2] == 46;
    let mut e3: usize = e2;
    let mut patch: Option<u64> = None;
    if has_patch {
        let (e, p) = scan_number(s, e2 + 1);
        proof {
            lemma_run_end_bounds(s@, e2 + 1);
        }
        if e == e2 + 1 {
            return Err(Error::VersionParse);
        }
        match p {
            Some(x) => {
                patch = Some(x);
            },
            None => {
                return Err(Error::VersionParse);
            },
        }
        e3 = e;
    }
    if !check_tag(s, e3) {
        return Err(Error::VersionParse);
    }
    match (major, minor) {
        (Some(a), Some(b)) => {
            let tag = vstd::slice::slice_to_vec(vstd::slice::slice_subrange(s, e3, s.len()));
            let v = ReleaseIdentifier { major: a, minor: b, patch, tag };
            assert(v@ =~= spec_parse(s@)->0);
            Ok(v)
        },
        _ => Err(Error::VersionParse),
    }
}


/// The decimal text of a number, without leading zeros.
pub open spec fn decimal(n: nat) -> Seq<u8>
    decreases n,
{
    if n < 10 {
        seq![(48 + n) as u8]
    } else {
        decimal(n / 10).push((48 + n % 10) as u8)
    }
}

/// The canonical text of a release identifier.
pub open spec fn render(v: ReleaseView) -> Seq<u8> {
    decimal(v.major) + seq![46u8] + decimal(v.minor) + match v.patch {
        Some(p) => seq![46u8] + decimal(p),
        None => Seq::<u8>::empty(),
    } + v.tag
}

/// A value that some text denotes.
pub open spec fn valid_view(v: ReleaseView) -> bool {
    &&& fits_u64(v.major)
    &&& fits_u64(v.minor)
    &&& (v.patch is Some ==> fits_u64(v.patch->0))
    &&& valid_tag(v.tag)
}

proof fn lemma_decimal(n: nat)
    ensures
        decimal(n).len() > 0,
        forall|i: int| 0 <= i < decimal(n).len() ==> is_digit(#[trigger] decimal(n)[i]),
        digits_value(decimal(n)) == n,
    decreases n,
{
    if n >= 10 {
        lemma_decimal(n / 10);
        assert(decimal(n).drop_last() =~= decimal(n / 10));
        assert(decimal(n).last() == (48 + n % 10) as u8);
        assert(digits_value(decimal(n)) == digits_value(decimal(n / 10)) * 10 + (n % 10) as nat);
        assert(n == (n / 10) * 10 + n % 10);
    } else {
        assert(decimal(n).drop_last() =~= Seq::<u8>::empty());
        assert(decimal(n).last() == (48 + n) as u8);
        assert(digits_value(decimal(n)) == digits_value(Seq::<u8>::empty()) * 10 + n);
    }
}

proof fn lemma_run_end_exact(s: Seq<u8>, i: int, j: int)
    requires
        0 <= i <= j <= s.len(),
        forall|k: int| i <= k < j ==> is_digit(#[trigger] s[k]),
        j == s.len() || !is_digit(s[j]),
    ensures
        run_end(s, i) == j,
    decreases j - i,
{
    if i < j {
        lemma_run_end_exact(s, i + 1, j);
    }
}

proof fn lemma_parse_render(v: ReleaseView)
    requires
        valid_view(v),
    ensures
        spec_parse(render(v)) == Some(v),
{
    let d1 = decimal(v.major);
    let d2 = decimal(v.minor);
    lemma_decimal(v.major);
    lemma_decimal(v.minor);
    let p = match v.patch {
        Some(x) => seq![46u8] + decimal(x),
        None => Seq::<u8>::empty(),
    };
    let s = render(v);
    assert(s =~= d1 + seq![46u8] + d2 + p + v.tag);
    let e1 = d1.len() as int;
    let e2 = e1 + 1 + d2.len();
    let e3 = e2 + p.len();
    assert(s[e1] == 46);
    lemma_run_end_exact(s, 0, e1);
    assert(s.subrange(0, e1) =~= d1);
    assert(s.subrange(e1 + 1, e2) =~= d2);
    assert(s.subrange(e3, s.len() as int) =~= v.tag);
    if v.tag.len() > 0 {
        assert(s[e3] == v.tag[0]);
    }
    match v.patch {
        Some(x) => {
            lemma_decimal(x);
            assert(s[e2] == 46);
            lemma_run_end_exact(s, e1 + 1, e2);
            lemma_run_end_exact(s, e2 + 1, e3);
            assert(s.subrange(e2 + 1, e3) =~= decimal(x));
        },
        None => {
            lemma_run_end_exact(s, e1 + 1, e2);
        },
    }
}

/// Text and value agree: whatever text parses, its canonical rendering parses
/// back to the same release identifier.
pub proof fn lemma_parse_round_trip(s: Seq<u8>)
    requires
        spec_parse(s) is Some,
    ensures
        spec_parse(render(spec_parse(s)->0)) == spec_parse(s),
{
    lemma_parse_render(spec_parse(s)->0);
}

fn push_decimal(out: &mut Vec<u8>, n: u64)
    ensures
        final(out)@ == old(out)@ + decimal(n as nat),
    decreases n,
{
    if n >= 10 {
        push_decimal(out, n / 10);
    }
    out.push(48 + (n % 10) as u8);
    proof {
        if n < 10 {
            assert(decimal(n as nat) =~= seq![(48 + n) as u8]);
        }
    }
    assert(final(out)@ =~= old(out)@ + decimal(n as nat));
}

impl ReleaseIdentifier {
    /// The canonical text of this identifier, which parses back to it.
    pub fn to_text(&self) -> (r: Vec<u8>)
        ensures
            r@ == render(self@),
            valid_tag(self.tag@) ==> spec_parse(r@) == Some(self@),
    {
        let mut out: Vec<u8> = Vec::new();
        push_decimal(&mut out, self.major);
        out.push(46);
        push_decimal(&mut out, self.minor);
        match self.patch {
            Some(p) => {
                out.push(46);
                push_decimal(&mut out, p);
            },
            None => {},
        }
        let mut i: usize = 0;
        let ghost before = out@;
        while i < self.tag.len()
            invariant
                out@ == before + self.tag@.subrange(0, i as int),
                i <= self.tag@.len(),
            decreases self.tag@.len() - i,
        {
            out.push(self.tag[i]);
            i = i + 1;
            assert(out@ =~= before + self.tag@.subrange(0, i as int));
        }
        assert(out@ =~= render(self@));
        proof {
            if valid_tag(self.tag@) {
                lemma_parse_render(self@);
            }
        }
        out
    }
}


/// Strict lexicographic order on byte strings.
pub open spec fn lex_less(p: Seq<u8>, q: Seq<u8>) -> bool
    decreases p.len(),
{
    if p.len() == 0 {
        q.len() > 0
    } else if q.len() == 0 {
        false
    } else if p[0] != q[0] {
        p[0] < q[0]
    } else {
        lex_less(p.skip(1), q.skip(1))
    }
}

/// A tagged identifier comes before the untagged one; tags go lexicographically.
pub open spec fn tag_less(p: Seq<u8>, q: Seq<u8>) -> bool {
    p.len() > 0 && (q.len() == 0 || lex_less(p, q))
}

/// An absent patch number comes before every present one.
pub open spec fn patch_rank(p: Option<nat>) -> int {
    match p {
        Some(x) => x as int,
        None => -1,
    }
}

/// The strict order of release identifiers: by major, minor, patch, then tag.
pub open spec fn release_less(a: ReleaseView, b: ReleaseView) -> bool {
    if a.major != b.major {
        a.major < b.major
    } else if a.minor != b.minor {
        a.minor < b.minor
    } else if patch_rank(a.patch) != patch_rank(b.patch) {
        patch_rank(a.patch) < patch_rank(b.patch)
    } else {
        tag_less(a.tag, b.tag)
    }
}

proof fn lemma_lex_trichotomy(p: Seq<u8>, q: Seq<u8>)
    ensures
        lex_less(p, q) || p == q || lex_less(q, p),
        !(lex_less(p, q) && lex_less(q, p)),
        !lex_less(p, p),
    decreases p.len(),
{
    if p.len() > 0 {
        lemma_lex_trichotomy(p.skip(1), p.skip(1));
    }
    if p.len() > 0 && q.len() > 0 {
        lemma_lex_trichotomy(p.skip(1), q.skip(1));
        if p[0] == q[0] && p.skip(1) == q.skip(1) {
            assert(p =~= seq![p[0]] + p.skip(1));
            assert(q =~= seq![q[0]] + q.skip(1));
        }
    } else if p.len() == 0 && q.len() == 0 {
        assert(p =~= q);
    }
}

proof fn lemma_lex_transitive(p: Seq<u8>, q: Seq<u8>, r: Seq<u8>)
    requires
        lex_less(p, q),
        lex_less(q, r),
    ensures
        lex_less(p, r),
    decreases p.len(),
{
    if p.len() > 0 && q.len() > 0 && r.len() > 0 && p[0] == q[0] && q[0] == r[0] {
        lemma_lex_transitive(p.skip(1), q.skip(1), r.skip(1));
    }
}

/// Release identifiers are totally ordered: of `a < b`, `a == b` and `b < a`
/// exactly one holds.
pub proof fn lemma_release_trichotomy(a: ReleaseView, b: ReleaseView)
    ensures
        release_less(a, b) || a == b || release_less(b, a),
        !(release_less(a, b) && a == b),
        !(release_less(b, a) && a == b),
        !(release_less(a, b) && release_less(b, a)),
{
    lemma_lex_trichotomy(a.tag, b.tag);
    lemma_lex_trichotomy(a.tag, a.tag);
    if patch_rank(a.patch) == patch_rank(b.patch) {
        assert(a.patch == b.patch);
    }
}

/// The order of release identifiers is transitive.
pub proof fn lemma_release_transitive(a: ReleaseView, b: ReleaseView, c: ReleaseView)
    requires
        release_less(a, b),
        release_less(b, c),
    ensures
        release_less(a, c),
{
    if a.major == b.major && b.major == c.major && a.minor == b.minor && b.minor == c.minor
        && patch_rank(a.patch) == patch_rank(b.patch) && patch_rank(b.patch) == patch_rank(c.patch) {
        if c.tag.len() > 0 {
            lemma_lex_transitive(a.tag, b.tag, c.tag);
        }
    }
}

fn compare_tags(p: &Vec<u8>, q: &Vec<u8>) -> (r: std::cmp::Ordering)
    ensures
        (r == std::cmp::Ordering::Less) == tag_less(p@, q@),
        (r == std::cmp::Ordering::Equal) == (p@ == q@),
        (r == std::cmp::Ordering::Greater) == tag_less(q@, p@),
{
    proof {
        lemma_lex_trichotomy(p@, q@);
    }
    if p.len() == 0 && q.len() == 0 {
        assert(p@ =~= q@);
        return std::cmp::Ordering::Equal;
    }
    if p.len() == 0 {
        return std::cmp::Ordering::Greater;
    }
    if q.len() == 0 {
        return std::cmp::Ordering::Less;
    }
    let mut i: usize = 0;
    assert(p@.skip(0) =~= p@);
    assert(q@.skip(0) =~= q@);
    while i < p.len() && i < q.len()
        invariant
            i <= p@.len(),
            i <= q@.len(),
            p@.subrange(0, i as int) == q@.subrange(0, i as int),
            lex_less(p@, q@) == lex_less(p@.skip(i as int), q@.skip(i as int)),
            lex_less(q@, p@) == lex_less(q@.skip(i as int), p@.skip(i as int)),
        decreases p@.len() - i,
    {
        if p[i] < q[i] {
            return std::cmp::Ordering::Less;
        }
        if p[i] > q[i] {
            return std::cmp::Ordering::Greater;
        }
        assert(p@.skip(i as int).skip(1) =~= p@.skip(i + 1));
        assert(q@.skip(i as int).skip(1) =~= q@.skip(i + 1));
        assert(p@.subrange(0, i + 1) =~= p@.subrange(0, i as int).push(p@[i as int]));
        assert(q@.subrange(0, i + 1) =~= q@.subrange(0, i as int).push(q@[i as int]));
        i = i + 1;
    }
    if p.len() == q.len() {
        assert(p@ =~= p@.subrange(0, i as int));
        assert(q@ =~= q@.subrange(0, i as int));
        std::cmp::Ordering::Equal
    } else if p.len() < q.len() {
        assert(p@.skip(i as int).len() == 0);
        std::cmp::Ordering::Less
    } else {
        assert(q@.skip(i as int).len() == 0);
        std::cmp::Ordering::Greater
    }
}

fn compare_u64(a: u64, b: u64) -> (r: std::cmp::Ordering)
    ensures
        (r == std::cmp::Ordering::Less) == (a < b),
        (r == std::cmp::Ordering::Equal) == (a == b),
        (r == std::cmp::Ordering::Greater) == (a > b),
{
    if a < b {
        std::cmp::Ordering::Less
    } else if a == b {
        std::cmp::Ordering::Equal
    } else {
        std::cmp::Ordering::Greater
    }
}

impl ReleaseIdentifier {
    /// Compares two identifiers in the total order of releases.
    pub fn compare(&self, other: &ReleaseIdentifier) -> (r: std::cmp::Ordering)
        ensures
            (r == std::cmp::Ordering::Less) == release_less(self@, other@),
            (r == std::cmp::Ordering::Equal) == (self@ == other@),
            (r == std::cmp::Ordering::Greater) == release_less(other@, self@),
    {
        proof {
            lemma_release_trichotomy(self@, other@);
        }
        let c = compare_u64(self.major, other.major);
        match c {
            std::cmp::Ordering::Equal => {},
            _ => {
                return c;
            },
        }
        let c = compare_u64(self.minor, other.minor);
        match c {
            std::cmp::Ordering::Equal => {},
            _ => {
                return c;
            },
        }
        let c = match (self.patch, other.patch) {
            (Some(x), Some(y)) => compare_u64(x, y),
            (None, Some(_)) => std::cmp::Ordering::Less,
            (Some(_), None) => std::cmp::Ordering::Greater,
            (None, None) => std::cmp::Ordering::Equal,
        };
        match c {
            std::cmp::Ordering::Equal => {},
            _ => {
                return c;
            },
        }
        let c = compare_tags(&self.tag, &other.tag);
        proof {
            if c == std::cmp::Ordering::Equal {
                assert(self@ == other@);
            }
        }
        c
    }

    /// A copy of this identifier with the same value.
    pub fn duplicate(&self) -> (r: ReleaseIdentifier)
        ensures
            r@ == self@,
    {
        ReleaseIdentifier {
            major: self.major,
            minor: self.minor,
            patch: self.patch,
            tag: vstd::slice::slice_to_vec(self.tag.as_slice()),
        }
    }

    /// Whether `self` comes strictly before `other`.
    pub fn is_older_than(&self, other: &ReleaseIdentifier) -> (r: bool)
        ensures
            r == release_less(self@, other@),
    {
        match self.compare(other) {
            std::cmp::Ordering::Less => true,
            _ => false,
        }
    }
}

} // verus!
