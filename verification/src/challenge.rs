use crate::state::{distinct_seq, lemma_distinct_push, lemma_remove_first_absent, lemma_remove_first_at, lemma_remove_first_props, remove_first};
use vstd::prelude::*;

verus! {

/// A challenge token lives this many seconds.
pub const NONCE_TTL_SECONDS: u64 = 300;

/// The store a sequence of issues and consumes leaves behind: each live
/// token mapped to its absolute expiry time (Unix seconds).
pub open spec fn store_map(s: Seq<(String, u64)>) -> Map<Seq<char>, u64>
    decreases s.len(),
{
    if s.len() == 0 {
        Map::<Seq<char>, u64>::empty()
    } else {
        store_map(s.drop_last()).insert(s.last().0@, s.last().1)
    }
}

/// Issuing stores the token with a full time-to-live from `now`.
pub open spec fn spec_issue(m: Map<Seq<char>, u64>, t: Seq<char>, now: u64) -> Map<Seq<char>, u64> {
    m.insert(t, (now + NONCE_TTL_SECONDS) as u64)
}

/// Consuming succeeds exactly when the token is present and unexpired, and
/// removes it either way: existence is the sole validity signal, and a
/// consumed token is absent afterwards.
pub open spec fn spec_consume(m: Map<Seq<char>, u64>, t: Seq<char>, now: u64) -> (bool, Map<
    Seq<char>,
    u64,
>) {
    ((m.contains_key(t) && now < m[t]), m.remove(t))
}

/// One-time challenge tokens with a per-token expiry.  This is the model of
/// the external key-value store the deployment uses; the authentication
/// engine's replay safety is stated against it.
#[derive(Debug)]
pub struct ChallengeStore {
    pub entries: Vec<(String, u64)>,
}

pub open spec fn key_views(s: Seq<(String, u64)>) -> Seq<Seq<char>> {
    s.map_values(|e: (String, u64)| e.0@)
}

impl View for ChallengeStore {
    type V = Map<Seq<char>, u64>;

    open spec fn view(&self) -> Map<Seq<char>, u64> {
        store_map(self.entries@)
    }
}

/// Every key of the accumulated map occurs in the entry list, and with
/// distinct keys each entry is in the map at its own expiry.
proof fn lemma_store_map_keys(s: Seq<(String, u64)>)
    ensures
        forall|t: Seq<char>|
            #![trigger store_map(s).contains_key(t)]
            #![trigger key_views(s).contains(t)]
            store_map(s).contains_key(t) == key_views(s).contains(t),
        forall|i: int|
            0 <= i < s.len() && distinct_seq(key_views(s)) ==> store_map(s)[(
            #[trigger] s[i]).0@] == s[i].1,
    decreases s.len(),
{
    if s.len() == 0 {
        assert forall|t: Seq<char>|
            #![trigger store_map(s).contains_key(t)]
            #![trigger key_views(s).contains(t)]
            store_map(s).contains_key(t) == key_views(s).contains(t) by {
            assert(!store_map(s).contains_key(t));
            if key_views(s).contains(t) {
                let j = choose|j: int| 0 <= j < key_views(s).len() && key_views(s)[j] == t;
                assert(false);
            }
        }
    } else {
        let d = s.drop_last();
        lemma_store_map_keys(d);
        assert(key_views(d) =~= key_views(s).drop_last());
        assert forall|t: Seq<char>|
            #![trigger store_map(s).contains_key(t)]
            #![trigger key_views(s).contains(t)]
            store_map(s).contains_key(t) == key_views(s).contains(t) by {
            assert(store_map(s) == store_map(d).insert(s.last().0@, s.last().1));
            assert(key_views(s)[s.len() - 1] == s.last().0@);
            if store_map(s).contains_key(t) {
                if t == s.last().0@ {
                    assert(key_views(s).contains(t)) by {
                        assert(key_views(s)[s.len() - 1] == t);
                    }
                } else {
                    assert(store_map(d).contains_key(t));
                    assert(key_views(d).contains(t));
                    let j = choose|j: int| 0 <= j < key_views(d).len() && key_views(d)[j] == t;
                    assert(key_views(s)[j] == t);
                }
            }
            if key_views(s).contains(t) {
                let j = choose|j: int| 0 <= j < key_views(s).len() && key_views(s)[j] == t;
                if j == s.len() - 1 {
                    assert(t == s.last().0@);
                    assert(store_map(s).contains_key(t));
                } else {
                    assert(key_views(d)[j] == t);
                    assert(key_views(d).contains(t));
                    assert(store_map(d).contains_key(t));
                    assert(store_map(s).contains_key(t));
                }
            }
        }
        if distinct_seq(key_views(s)) {
            assert(distinct_seq(key_views(d))) by {
                assert(forall|i: int|
                    0 <= i < key_views(d).len() ==> key_views(d)[i] == key_views(s)[i]);
            }
            assert forall|i: int| 0 <= i < s.len() implies store_map(s)[(#[trigger] s[i]).0@]
                == s[i].1 by {
                if i < s.len() - 1 {
                    assert(key_views(s)[i] == s[i].0@ && key_views(s)[s.len() - 1] == s.last().0@);
                    assert(s[i].0@ != s.last().0@);
                    assert(d[i] == s[i]);
                    assert(store_map(d)[d[i].0@] == d[i].1);
                }
            }
        }
    }
}

/// Removing the entry at the sole index of a key removes the key from the
/// accumulated map.
proof fn lemma_store_map_remove(s: Seq<(String, u64)>, i: int)
    requires
        distinct_seq(key_views(s)),
        0 <= i < s.len(),
    ensures
        store_map(s.remove(i)) == store_map(s).remove(s[i].0@),
    decreases s.len(),
{
    lemma_store_map_keys(s);
    if i == s.len() - 1 {
        assert(s.remove(i) =~= s.drop_last());
        assert(!store_map(s.drop_last()).contains_key(s[i].0@)) by {
            assert(key_views(s.drop_last()) =~= key_views(s).drop_last());
            if key_views(s.drop_last()).contains(s[i].0@) {
                let j = choose|j: int|
                    0 <= j < key_views(s.drop_last()).len() && #[trigger] key_views(
                        s.drop_last(),
                    )[j] == s[i].0@;
                assert(key_views(s)[j] == key_views(s)[i]);
            }
            lemma_store_map_keys(s.drop_last());
        }
        assert(store_map(s.remove(i)) =~= store_map(s).remove(s[i].0@));
    } else {
        assert(distinct_seq(key_views(s.drop_last()))) by {
            assert(key_views(s.drop_last()) =~= key_views(s).drop_last());
            assert(forall|j: int|
                0 <= j < key_views(s.drop_last()).len() ==> key_views(s.drop_last())[j]
                    == key_views(s)[j]);
        }
        lemma_store_map_remove(s.drop_last(), i);
        assert(s.remove(i).drop_last() =~= s.drop_last().remove(i));
        assert(s.remove(i).last() == s.last());
        assert(store_map(s.remove(i)) == store_map(s.drop_last().remove(i)).insert(
            s.last().0@,
            s.last().1,
        ));
        assert(key_views(s)[i] == s[i].0@ && key_views(s)[s.len() - 1] == s.last().0@);
        assert(s[i].0@ != s.last().0@);
        assert(store_map(s.drop_last()).remove(s[i].0@).insert(s.last().0@, s.last().1)
            =~= store_map(s.drop_last()).insert(s.last().0@, s.last().1).remove(s[i].0@));
    }
}

impl ChallengeStore {
    pub open spec fn wf(&self) -> bool {
        distinct_seq(key_views(self.entries@))
    }

    /// An empty store.
    pub fn new() -> (r: Self)
        ensures
            r.wf(),
            r@ == Map::<Seq<char>, u64>::empty(),
    {
        let r = ChallengeStore { entries: Vec::new() };
        proof {
            assert(r@ =~= Map::<Seq<char>, u64>::empty());
        }
        r
    }

    /// Index of the entry holding this token text, if any; the first and,
    /// with distinct keys, only one.
    fn find_token(&self, token: &String) -> (r: Option<usize>)
        ensures
            r matches Some(i) ==> i < self.entries@.len() && self.entries@[i as int].0@ == token@
                && (forall|j: int| 0 <= j < i ==> (#[trigger] self.entries@[j]).0@ != token@),
            r is None ==> !key_views(self.entries@).contains(token@),
    {
        let n = self.entries.len();
        for i in 0..n
            invariant
                n == self.entries@.len(),
                forall|j: int| 0 <= j < i ==> (#[trigger] self.entries@[j]).0@ != token@,
        {
            if self.entries[i].0.eq(token) {
                return Some(i);
            }
        }
        proof {
            if key_views(self.entries@).contains(token@) {
                let j = choose|j: int|
                    0 <= j < key_views(self.entries@).len() && key_views(self.entries@)[j]
                        == token@;
                assert(self.entries@[j].0@ == token@);
            }
        }
        None
    }

    /// Records a freshly issued token with a full time-to-live.
    pub fn issue(&mut self, token: String, now: u64)
        requires
            old(self).wf(),
            now + NONCE_TTL_SECONDS <= u64::MAX,
        ensures
            final(self).wf(),
            final(self)@ == spec_issue(old(self)@, token@, now),
    {
        let ghost s0 = self.entries@;
        // a token is issued once; replace any stale entry with the same text
        let at = self.find_token(&token);
        let ghost mid: Seq<(String, u64)>;
        match at {
            Some(i) => {
                proof {
                    assert(key_views(s0)[i as int] == token@);
                    lemma_store_map_remove(s0, i as int);
                }
                self.entries.remove(i);
                proof {
                    mid = self.entries@;
                    assert(mid =~= s0.remove(i as int));
                    assert(key_views(mid) =~= key_views(s0).remove(i as int));
                    lemma_remove_first_at(key_views(s0), token@, i as int);
                    lemma_remove_first_props(key_views(s0), token@);
                    assert(key_views(mid) == remove_first(key_views(s0), token@));
                    assert(store_map(mid) == store_map(s0).remove(token@));
                }
            },
            None => {
                proof {
                    mid = self.entries@;
                    lemma_store_map_keys(s0);
                    assert(!store_map(s0).contains_key(token@));
                    assert(store_map(mid) =~= store_map(s0).remove(token@));
                    lemma_remove_first_props(key_views(s0), token@);
                }
            },
        }
        proof {
            assert(distinct_seq(key_views(mid)));
            assert(!key_views(mid).contains(token@));
            assert(store_map(mid) == store_map(s0).remove(token@));
        }
        self.entries.push((token, now + NONCE_TTL_SECONDS));
        proof {
            let sf = self.entries@;
            assert(sf.drop_last() =~= mid);
            assert(sf.last() == (token, (now + NONCE_TTL_SECONDS) as u64));
            assert(store_map(sf) == store_map(mid).insert(token@, (now
                + NONCE_TTL_SECONDS) as u64));
            assert(store_map(sf) =~= spec_issue(store_map(s0), token@, now));
            assert(key_views(sf) =~= key_views(mid).push(token@));
            lemma_distinct_push(key_views(mid), token@);
        }
    }

    /// Deletes the token and reports whether it was present and unexpired:
    /// true means valid and single-use, false means expired, unknown, or
    /// replayed.
    pub fn consume(&mut self, token: &String, now: u64) -> (ok: bool)
        requires
            old(self).wf(),
        ensures
            final(self).wf(),
            ok == spec_consume(old(self)@, token@, now).0,
            final(self)@ == spec_consume(old(self)@, token@, now).1,
    {
        let ghost s0 = self.entries@;
        proof {
            lemma_store_map_keys(s0);
        }
        match self.find_token(token) {
            Some(i) => {
                proof {
                    assert(key_views(s0)[i as int] == token@);
                    assert(store_map(s0).contains_key(token@));
                    assert(store_map(s0)[s0[i as int].0@] == s0[i as int].1);
                    lemma_store_map_remove(s0, i as int);
                    lemma_remove_first_at(key_views(s0), token@, i as int);
                    lemma_remove_first_props(key_views(s0), token@);
                }
                let expiry = self.entries[i].1;
                self.entries.remove(i);
                proof {
                    assert(self.entries@ =~= s0.remove(i as int));
                    assert(key_views(self.entries@) =~= key_views(s0).remove(i as int));
                    assert(key_views(self.entries@) == remove_first(key_views(s0), token@));
                }
                now < expiry
            },
            None => {
                proof {
                    assert(!store_map(s0).contains_key(token@));
                    assert(store_map(s0) =~= store_map(s0).remove(token@));
                }
                false
            },
        }
    }
}

// ---------------------------------------------------------------------------
// Replay and expiry laws
// ---------------------------------------------------------------------------

/// Law: a challenge authenticates at most once.  Whatever the store held,
/// once a token has been consumed, a second consume of the same token fails,
/// at any later (or earlier) time.
pub proof fn lemma_challenge_single_use(
    m: Map<Seq<char>, u64>,
    t: Seq<char>,
    now1: u64,
    now2: u64,
)
    ensures
        !spec_consume(spec_consume(m, t, now1).1, t, now2).0,
{
}

/// Law: a challenge not consumed within its time-to-live no longer
/// verifies: consuming a token `NONCE_TTL_SECONDS` or more after it was
/// issued fails.
pub proof fn lemma_challenge_expires(m: Map<Seq<char>, u64>, t: Seq<char>, issued: u64, now: u64)
    requires
        issued + NONCE_TTL_SECONDS <= u64::MAX,
        now >= issued + NONCE_TTL_SECONDS,
    ensures
        !spec_consume(spec_issue(m, t, issued), t, now).0,
{
}

/// Law: a freshly issued challenge is consumable exactly once while its
/// time-to-live lasts: the first consume before expiry succeeds, and leaves
/// the token absent.
pub proof fn lemma_challenge_fresh_consumable(
    m: Map<Seq<char>, u64>,
    t: Seq<char>,
    issued: u64,
    now: u64,
)
    requires
        issued + NONCE_TTL_SECONDS <= u64::MAX,
        now < issued + NONCE_TTL_SECONDS,
    ensures
        spec_consume(spec_issue(m, t, issued), t, now).0,
        !spec_consume(spec_issue(m, t, issued), t, now).1.contains_key(t),
{
}

/// The key a challenge token is stored under in the external key-value
/// service.
pub fn nonce_key(token: &String) -> (r: String)
    ensures
        r@ == "nonce:"@ + token@,
{
    let mut r = String::from_str("nonce:");
    r.append(token.as_str());
    r
}

} // verus!
