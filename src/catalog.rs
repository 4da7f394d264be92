//! The catalog of published releases, newest first, and the choice of the
//! latest one.

use vstd::prelude::*;
use crate::error::Error;
use crate::text::{bytes_equal, literal, text};
use crate::version::{
    is_tag_byte, lemma_release_transitive, lemma_release_trichotomy, parse_version, release_less, spec_parse,
    ReleaseIdentifier, ReleaseView,
};

verus! {

/// What a catalog entry denotes: a release identifier, optionally written
/// with a leading `go`.
pub open spec fn entry_release(t: Seq<u8>) -> Option<ReleaseView> {
    if t.len() >= 2 && t[0] == 103 && t[1] == 111 {
        spec_parse(t.skip(2))
    } else {
        spec_parse(t)
    }
}

/// Reads one catalog entry (`go1.21.0` or `1.21.0`); `None` when malformed.
pub fn parse_entry(t: &[u8]) -> (r: Option<ReleaseIdentifier>)
    ensures
        match r {
            Some(v) => entry_release(t@) == Some(v@),
            None => entry_release(t@) is None,
        },
{
    let body = if t.len() >= 2 && t[0] == 103 && t[1] == 111 {
        vstd::slice::slice_subrange(t, 2, t.len())
    } else {
        t
    };
    assert(t@.len() >= 2 ==> t@.skip(2) =~= t@.subrange(2, t@.len() as int));
    match parse_version(body) {
        Ok(v) => Some(v),
        Err(_) => None,
    }
}

/// Each release comes strictly after the one that follows it.
pub open spec fn strictly_descending(c: Seq<ReleaseIdentifier>) -> bool {
    forall|a: int, b: int| 0 <= a < b < c.len() ==> release_less(#[trigger] c[b]@, #[trigger] c[a]@)
}

/// Some entry among `tags` denotes `v`.
pub open spec fn listed(tags: Seq<Vec<u8>>, v: ReleaseView) -> bool {
    exists|i: int| 0 <= i < tags.len() && entry_release(#[trigger] tags[i]@) == Some(v)
}

/// Some release in `c` has the value `v`.
pub open spec fn holds_release(c: Seq<ReleaseIdentifier>, v: ReleaseView) -> bool {
    exists|k: int| 0 <= k < c.len() && (#[trigger] c[k])@ == v
}

proof fn lemma_listed_extend(tags: Seq<Vec<u8>>, i: int)
    requires
        0 <= i < tags.len(),
    ensures
        forall|w: ReleaseView| #[trigger] listed(tags.subrange(0, i + 1), w) <==> (listed(tags.subrange(0, i), w)
            || entry_release(tags[i]@) == Some(w)),
{
    let pre = tags.subrange(0, i);
    let nxt = tags.subrange(0, i + 1);
    assert forall|w: ReleaseView| listed(nxt, w) <==> (listed(pre, w) || entry_release(tags[i]@) == Some(w)) by {
        if listed(nxt, w) {
            let k = choose|k: int| 0 <= k < nxt.len() && entry_release(#[trigger] nxt[k]@) == Some(w);
            if k < i {
                assert(pre[k] == nxt[k]);
            } else {
                assert(nxt[k] == tags[i]);
            }
        }
        if listed(pre, w) {
            let k = choose|k: int| 0 <= k < pre.len() && entry_release(#[trigger] pre[k]@) == Some(w);
            assert(pre[k] == nxt[k]);
        }
        if entry_release(tags[i]@) == Some(w) {
            assert(nxt[i] == tags[i]);
        }
    }
}

/// Builds the catalog from the entries of a listing: malformed entries are
/// dropped, the rest come newest first, each release once.
pub fn build_catalog(tags: &Vec<Vec<u8>>) -> (r: Result<Vec<ReleaseIdentifier>, Error>)
    ensures
        match r {
            Ok(c) => {
                &&& c@.len() > 0
                &&& strictly_descending(c@)
                &&& forall|v: ReleaseView| holds_release(c@, v) <==> listed(tags@, v)
            },
            Err(e) => e == Error::CatalogEmpty && forall|v: ReleaseView| !listed(tags@, v),
        },
{
    let mut out: Vec<ReleaseIdentifier> = Vec::new();
    let mut i: usize = 0;
    while i < tags.len()
        invariant
            i <= tags@.len(),
            strictly_descending(out@),
            forall|v: ReleaseView| holds_release(out@, v) <==> listed(tags@.subrange(0, i as int), v),
        decreases tags@.len() - i,
    {
        let ghost old_out = out@;
        let entry = parse_entry(tags[i].as_slice());
        match entry {
            Some(v) => {
                let ghost vview = v@;
                let mut j: usize = 0;
                while j < out.len() && v.is_older_than(&out[j])
                    invariant
                        j <= out@.len(),
                        out@ == old_out,
                        forall|k: int| 0 <= k < j ==> release_less(v@, #[trigger] out@[k]@),
                    decreases out@.len() - j,
                {
                    j = j + 1;
                }
                let present = j < out.len() && !out[j].is_older_than(&v);
                if present {
                    proof {
                        lemma_release_trichotomy(v@, out@[j as int]@);
                        assert(holds_release(out@, v@));
                    }
                } else {
                    let ghost vv = v@;
                    proof {
                        if j < out@.len() {
                            lemma_release_trichotomy(v@, out@[j as int]@);
                        }
                    }
                    out.insert(j, v);
                    assert(out@ == old_out.insert(j as int, out@[j as int]));
                    assert forall|a: int, b: int| 0 <= a < b < out@.len() implies release_less(
                        #[trigger] out@[b]@,
                        #[trigger] out@[a]@,
                    ) by {
                        if a < j && b == j {
                        } else if a == j && b > j {
                            assert(out@[b] == old_out[b - 1]);
                            if b > j + 1 {
                                assert(release_less(old_out[b - 1]@, old_out[j as int]@));
                                lemma_release_transitive(old_out[b - 1]@, old_out[j as int]@, vv);
                            }
                        } else if a < j && b > j {
                            assert(release_less(old_out[b - 1]@, old_out[a]@));
                        } else if a > j {
                            assert(release_less(old_out[b - 1]@, old_out[a - 1]@));
                        } else {
                            assert(release_less(old_out[b]@, old_out[a]@));
                        }
                    }
                    assert forall|w: ReleaseView| holds_release(out@, w) <==> (holds_release(old_out, w) || w == vv) by {
                        if holds_release(old_out, w) {
                            let k = choose|k: int| 0 <= k < old_out.len() && (#[trigger] old_out[k])@ == w;
                            if k < j {
                                assert(out@[k] == old_out[k]);
                            } else {
                                assert(out@[k + 1] == old_out[k]);
                            }
                        }
                        if w == vv {
                            assert(out@[j as int]@ == vv);
                        }
                        if holds_release(out@, w) {
                            let k = choose|k: int| 0 <= k < out@.len() && (#[trigger] out@[k])@ == w;
                            if k < j {
                                assert(out@[k] == old_out[k]);
                            } else if k > j {
                                assert(out@[k] == old_out[k - 1]);
                            }
                        }
                    }
                }
                proof {
                    let vv = entry_release(tags@[i as int]@)->0;
                    assert(vv == vview);
                    lemma_listed_extend(tags@, i as int);
                    assert forall|w: ReleaseView| holds_release(out@, w) <==> listed(tags@.subrange(0, i + 1), w) by {
                        assert(holds_release(out@, w) <==> (holds_release(old_out, w) || w == vv));
                        assert(holds_release(old_out, w) <==> listed(tags@.subrange(0, i as int), w));
                    }
                }
            },
            None => {
                assert(out@ == old_out);
                proof {
                    lemma_listed_extend(tags@, i as int);
                }
            },
        }
        i = i + 1;
    }
    assert(tags@.subrange(0, i as int) =~= tags@);
    if out.len() == 0 {
        assert forall|v: ReleaseView| !listed(tags@, v) by {
            if listed(tags@, v) {
                assert(!holds_release(out@, v));
            }
        }
        Err(Error::CatalogEmpty)
    } else {
        Ok(out)
    }
}

/// The newest release of a catalog: a release of it that no other release
/// of it comes after.
pub fn latest(catalog: &Vec<ReleaseIdentifier>) -> (r: Result<ReleaseIdentifier, Error>)
    ensures
        match r {
            Ok(v) => holds_release(catalog@, v@) && forall|k: int|
                0 <= k < catalog@.len() ==> !release_less(v@, #[trigger] catalog@[k]@),
            Err(e) => e == Error::CatalogEmpty && catalog@.len() == 0,
        },
{
    if catalog.len() == 0 {
        return Err(Error::CatalogEmpty);
    }
    let mut best: usize = 0;
    let mut i: usize = 1;
    proof {
        lemma_release_trichotomy(catalog@[0]@, catalog@[0]@);
    }
    while i < catalog.len()
        invariant
            1 <= i <= catalog@.len(),
            best < catalog@.len(),
            forall|k: int| 0 <= k < i ==> !release_less(catalog@[best as int]@, #[trigger] catalog@[k]@),
        decreases catalog@.len() - i,
    {
        if catalog[best].is_older_than(&catalog[i]) {
            let ghost prev = best;
            best = i;
            proof {
                assert forall|k: int| 0 <= k < i + 1 implies !release_less(
                    catalog@[best as int]@,
                    #[trigger] catalog@[k]@,
                ) by {
                    lemma_release_trichotomy(catalog@[k]@, catalog@[prev as int]@);
                    lemma_release_trichotomy(catalog@[k]@, catalog@[best as int]@);
                    if k < i && release_less(catalog@[best as int]@, catalog@[k]@) {
                        assert(!release_less(catalog@[prev as int]@, catalog@[k]@));
                        lemma_release_transitive(catalog@[prev as int]@, catalog@[best as int]@, catalog@[k]@);
                    }
                }
            }
        } else {
            proof {
                lemma_release_trichotomy(catalog@[best as int]@, catalog@[i as int]@);
            }
        }
        i = i + 1;
    }
    Ok(catalog[best].duplicate())
}

/// Bytes that may occur in a word of a listing.
pub open spec fn is_word_byte(b: u8) -> bool {
    is_tag_byte(b) || b == 45
}

/// The maximal runs of word bytes in `s`, in order.
pub open spec fn words(s: Seq<u8>) -> Seq<Seq<u8>>
    decreases s.len(),
{
    if s.len() == 0 {
        Seq::empty()
    } else {
        let w = words(s.drop_last());
        let b = s.last();
        if !is_word_byte(b) {
            w
        } else if s.len() >= 2 && is_word_byte(s[s.len() - 2]) {
            w.update(w.len() - 1, w.last().push(b))
        } else {
            w.push(seq![b])
        }
    }
}

/// The values of a sequence of byte vectors.
pub open spec fn byte_views(v: Seq<Vec<u8>>) -> Seq<Seq<u8>> {
    v.map_values(|t: Vec<u8>| t@)
}

/// Splits a listing page into its words, the candidates for catalog entries.
pub fn listing_words(page: &[u8]) -> (r: Vec<Vec<u8>>)
    ensures
        byte_views(r@) == words(page@),
{
    let mut out: Vec<Vec<u8>> = Vec::new();
    let mut cur: Vec<u8> = Vec::new();
    let mut i: usize = 0;
    assert(page@.subrange(0, 0) =~= Seq::<u8>::empty());
    assert(byte_views(out@) =~= Seq::<Seq<u8>>::empty());
    while i < page.len()
        invariant
            i <= page@.len(),
            (i > 0 && is_word_byte(page@[i - 1])) ==> cur@.len() > 0 && words(page@.subrange(0, i as int))
                == byte_views(out@).push(cur@),
            !(i > 0 && is_word_byte(page@[i - 1])) ==> cur@.len() == 0 && words(page@.subrange(0, i as int))
                == byte_views(out@),
        decreases page@.len() - i,
    {
        let b = page[i];
        let ghost pre = page@.subrange(0, i as int);
        let ghost nxt = page@.subrange(0, i + 1);
        assert(nxt.drop_last() =~= pre);
        assert(nxt.last() == b);
        assert(i > 0 ==> nxt[nxt.len() - 2] == page@[i - 1]);
        if (48 <= b && b <= 57) || (65 <= b && b <= 90) || (97 <= b && b <= 122) || b == 46 || b == 45 {
            let ghost old_cur = cur@;
            cur.push(b);
            proof {
                if i > 0 && is_word_byte(page@[i - 1]) {
                    assert(byte_views(out@).push(cur@) =~= byte_views(out@).push(old_cur).update(
                        byte_views(out@).len() as int,
                        old_cur.push(b),
                    ));
                } else {
                    assert(cur@ =~= seq![b]);
                }
            }
        } else {
            if cur.len() > 0 {
                let ghost prev = out@;
                out.push(cur);
                cur = Vec::new();
                assert(byte_views(out@) =~= byte_views(prev).push(out@[prev.len() as int]@));
            }
        }
        i = i + 1;
    }
    assert(page@.subrange(0, i as int) =~= page@);
    if cur.len() > 0 {
        let ghost prev = out@;
        out.push(cur);
        assert(byte_views(out@) =~= byte_views(prev).push(out@[prev.len() as int]@));
    }
    out
}

/// Builds the catalog from a listing page: every word of it that is a
/// release identifier (optionally led by `go`) is taken, newest first, each
/// release once.
pub fn catalog_from_listing(page: &[u8]) -> (r: Result<Vec<ReleaseIdentifier>, Error>)
    ensures
        match r {
            Ok(c) => {
                &&& c@.len() > 0
                &&& strictly_descending(c@)
                &&& forall|v: ReleaseView| holds_release(c@, v) <==> exists|i: int| 0 <= i < words(page@).len()
                    && entry_release(#[trigger] words(page@)[i]) == Some(v)
            },
            Err(e) => e == Error::CatalogEmpty && forall|i: int| 0 <= i < words(page@).len()
                ==> entry_release(#[trigger] words(page@)[i]) is None,
        },
{
    let entries = listing_words(page);
    let r = build_catalog(&entries);
    let ghost w = words(page@);
    assert forall|v: ReleaseView| listed(entries@, v) <==> exists|i: int| 0 <= i < w.len()
        && entry_release(#[trigger] w[i]) == Some(v) by {
        if listed(entries@, v) {
            let i = choose|i: int| 0 <= i < entries@.len() && entry_release(#[trigger] entries@[i]@) == Some(v);
            assert(w[i] == entries@[i]@);
        }
        if exists|i: int| 0 <= i < w.len() && entry_release(#[trigger] w[i]) == Some(v) {
            let i = choose|i: int| 0 <= i < w.len() && entry_release(#[trigger] w[i]) == Some(v);
            assert(w[i] == entries@[i]@);
        }
    }
    proof {
        if r is Err {
            assert forall|i: int| 0 <= i < w.len() implies entry_release(#[trigger] w[i]) is None by {
                assert(w[i] == entries@[i]@);
                if entry_release(w[i]) is Some {
                    assert(listed(entries@, entry_release(w[i])->0));
                }
            }
        }
    }
    r
}

/// Which release to fetch.
#[derive(Debug, Clone, PartialEq, Eq)]
pub enum Selector {
    /// The newest release of the catalog.
    Latest,
    /// This release, without consulting the catalog.
    Explicit(ReleaseIdentifier),
}

/// Reads a selector: `latest`, or a release identifier, which is checked
/// here, before any fetch.
pub fn parse_selector(s: &[u8]) -> (r: Result<Selector, Error>)
    ensures
        s@ == text("latest") ==> r == Ok::<Selector, Error>(Selector::Latest),
        s@ != text("latest") ==> match r {
            Ok(Selector::Explicit(v)) => spec_parse(s@) == Some(v@),
            Ok(Selector::Latest) => false,
            Err(e) => e == Error::VersionParse && spec_parse(s@) is None,
        },
{
    proof {
        reveal_strlit("latest");
    }
    if bytes_equal(s, literal("latest").as_slice()) {
        return Ok(Selector::Latest);
    }
    match parse_version(s) {
        Ok(v) => Ok(Selector::Explicit(v)),
        Err(e) => Err(e),
    }
}

} // verus!

