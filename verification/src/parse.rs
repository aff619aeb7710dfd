//! Parsing user input text into emoji tokens: the input splits into grapheme
//! clusters, blanks and lone zero-width non-joiners are skipped, trailing
//! non-joiners are trimmed, and every remaining cluster must name a catalog
//! emoji, or the whole input is rejected.

use vstd::prelude::*;
use vstd::string::StrSliceExecFns;
use vstd::string::StringExecFns;

use crate::emoji::Emoji;
use crate::emoji::EmojiMap;

verus! {

/// The extended grapheme clusters of a string.  Named, not defined:
/// segmentation is computed by the outside crate and depends on the
/// characters alone.
pub uninterp spec fn grapheme_clusters(s: Seq<char>) -> Seq<Seq<char>>;

/// Relies on unicode-segmentation's `graphemes` with extended clusters: the
/// grapheme clusters of the string, in order, a function of the characters
/// alone; an empty string has none.
#[verifier::external_body]
fn split_graphemes(s: &str) -> (r: Vec<String>)
    ensures
        r.deep_view() == grapheme_clusters(s@),
        s@.len() == 0 ==> r@.len() == 0,
{
    unicode_segmentation::UnicodeSegmentation::graphemes(s, true).map(|g: &str| g.to_owned()).collect()
}

/// The zero-width non-joiner, written into display output to keep emojis
/// from combining and therefore ignored on input.
pub open spec fn is_zwnj(c: char) -> bool {
    c == '\u{200c}'
}

/// A cluster that parsing skips entirely: a blank or a lone non-joiner.
pub open spec fn is_skipped(g: Seq<char>) -> bool {
    g == seq![' '] || g == seq!['\u{200c}']
}

/// A cluster with its trailing non-joiners removed.
pub open spec fn trim_zwnj(g: Seq<char>) -> Seq<char>
    decreases g.len(),
{
    if g.len() > 0 && is_zwnj(g.last()) {
        trim_zwnj(g.drop_last())
    } else {
        g
    }
}

/// The clusters parsing looks up: skipped ones removed, the rest trimmed.
pub open spec fn parsed_clusters(gs: Seq<Seq<char>>) -> Seq<Seq<char>>
    decreases gs.len(),
{
    if gs.len() == 0 {
        Seq::empty()
    } else {
        let rest = parsed_clusters(gs.drop_last());
        if is_skipped(gs.last()) {
            rest
        } else {
            rest.push(trim_zwnj(gs.last()))
        }
    }
}

/// Looked-up clusters of a prefix stay looked-up clusters of the whole, in
/// the same positions.
pub proof fn lemma_parsed_prefix(gs: Seq<Seq<char>>, j: int)
    requires
        0 <= j <= gs.len(),
    ensures
        parsed_clusters(gs.take(j)).len() <= parsed_clusters(gs).len(),
        forall|k: int|
            0 <= k < parsed_clusters(gs.take(j)).len() ==> #[trigger] parsed_clusters(gs)[k]
                == parsed_clusters(gs.take(j))[k],
    decreases gs.len(),
{
    if j == gs.len() {
        assert(gs.take(j) =~= gs);
    } else {
        assert(gs.take(j) =~= gs.drop_last().take(j));
        lemma_parsed_prefix(gs.drop_last(), j);
    }
}

/// Parses input text as a list of emojis.  Every cluster that is not skipped
/// must name a catalog emoji; the first unrecognised one rejects the whole
/// input with a message naming it.
pub fn parse_emoji_input(emoji_map: &EmojiMap, input: &str) -> (r: Result<Vec<Emoji>, String>)
    ensures
        ({
            let ps = parsed_clusters(grapheme_clusters(input@));
            match r {
                Ok(v) => {
                    &&& v@.len() == ps.len()
                    &&& (forall|k: int|
                        0 <= k < ps.len() ==> (#[trigger] v@[k]).text() == ps[k]
                            && emoji_map.has_text(ps[k]))
                },
                Err(_) => exists|k: int|
                    0 <= k < ps.len() && !emoji_map.has_text(#[trigger] ps[k]),
            }
        }),
{
    let gs = split_graphemes(input);
    let ghost gv = gs.deep_view();
    let mut v: Vec<Emoji> = Vec::new();
    let mut i: usize = 0;
    proof {
        assert(gv.take(0) =~= Seq::<Seq<char>>::empty());
    }
    while i < gs.len()
        invariant
            i <= gs@.len(),
            gv == gs.deep_view(),
            gv == grapheme_clusters(input@),
            gv.len() == gs@.len(),
            forall|k: int| 0 <= k < gs@.len() ==> #[trigger] gv[k] == gs@[k]@,
            v@.len() == parsed_clusters(gv.take(i as int)).len(),
            forall|k: int|
                0 <= k < v@.len() ==> (#[trigger] v@[k]).text() == parsed_clusters(
                    gv.take(i as int),
                )[k] && emoji_map.has_text(parsed_clusters(gv.take(i as int))[k]),
        decreases gs@.len() - i,
    {
        let g: &String = &gs[i];
        proof {
            assert(gv.take(i + 1).drop_last() =~= gv.take(i as int));
            assert(gv.take(i + 1).last() == gv[i as int]);
            assert(gv[i as int] == g@);
            reveal_strlit(" ");
            reveal_strlit("\u{200c}");
            assert(" "@ =~= seq![' ']);
            assert("\u{200c}"@ =~= seq!['\u{200c}']);
        }
        let blank = crate::emoji::str_eq(g.as_str(), " ");
        let lone_zwnj = crate::emoji::str_eq(g.as_str(), "\u{200c}");
        if !(blank || lone_zwnj) {
            proof {
                assert(!is_skipped(g@));
            }
            let n = g.as_str().unicode_len();
            let mut n2: usize = n;
            proof {
                assert(g@.subrange(0, n as int) =~= g@);
            }
            while n2 > 0 && g.as_str().get_char(n2 - 1) == '\u{200c}'
                invariant
                    n2 <= n,
                    n == g@.len(),
                    trim_zwnj(g@) == trim_zwnj(g@.subrange(0, n2 as int)),
                decreases n2,
            {
                proof {
                    assert(g@.subrange(0, n2 as int).drop_last() =~= g@.subrange(0, n2 - 1));
                    assert(g@.subrange(0, n2 as int).last() == g@[n2 - 1]);
                }
                n2 = n2 - 1;
            }
            let trimmed = g.as_str().substring_char(0, n2);
            proof {
                if n2 > 0 {
                    assert(!is_zwnj(g@.subrange(0, n2 as int).last()));
                }
                assert(trim_zwnj(g@.subrange(0, n2 as int)) == g@.subrange(0, n2 as int));
                assert(trimmed@ == trim_zwnj(g@));
            }
            match emoji_map.get(trimmed) {
                Some(e) => {
                    let ghost vpre = v@;
                    v.push(e);
                    proof {
                        assert(v@.drop_last() =~= vpre);
                        assert(v@.last() == e);
                        assert(parsed_clusters(gv.take(i + 1)) == parsed_clusters(
                            gv.take(i as int),
                        ).push(trim_zwnj(g@)));
                        assert forall|k: int|
                            0 <= k < v@.len() implies (#[trigger] v@[k]).text()
                            == parsed_clusters(gv.take(i + 1))[k] && emoji_map.has_text(
                            parsed_clusters(gv.take(i + 1))[k],
                        ) by {
                            if k < vpre.len() {
                                assert(v@[k] == vpre[k]);
                                assert(parsed_clusters(gv.take(i + 1))[k] == parsed_clusters(
                                    gv.take(i as int),
                                )[k]);
                            } else {
                                assert(v@[k] == e);
                            }
                        }
                    }
                },
                None => {
                    proof {
                        let ps = parsed_clusters(grapheme_clusters(input@));
                        lemma_parsed_prefix(gv, i + 1);
                        let bad = parsed_clusters(gv.take(i + 1)).len() - 1;
                        assert(parsed_clusters(gv.take(i + 1))[bad] == trim_zwnj(g@));
                        assert(ps[bad] == trim_zwnj(g@));
                        assert(!emoji_map.has_text(ps[bad]));
                    }
                    let mut msg = String::from_str("Could not recognize \"");
                    msg.append(trimmed);
                    msg.append("\" as an emoji in my list.");
                    return Err(msg);
                },
            }
        } else {
            proof {
                assert(is_skipped(g@));
                assert(parsed_clusters(gv.take(i + 1)) == parsed_clusters(gv.take(i as int)));
            }
        }
        i = i + 1;
    }
    proof {
        assert(gv.take(gv.len() as int) =~= gv);
    }
    Ok(v)
}

} // verus!
