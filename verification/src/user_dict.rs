//! The user dictionary, a personal word list that supplements the system
//! dictionary.
//!
//! It is kept in SKK format. User entries receive a score boost so that they rank
//! above system entries of the same reading.

use crate::candidate;
use crate::candidate::{copy_candidates, rank, Candidate, CandidateSource, CandidateView};
use crate::dictionary;
use crate::dictionary::{Content, DictionaryLookup, MatchView, RowView, SimpleDictionary};
use crate::order;
use crate::skk;
use crate::text::{chars_of, string_of};
use vstd::prelude::*;

verus! {

// ---------------------------------------------------------------------------
// UserDictionary
// ---------------------------------------------------------------------------

/// A user-specific dictionary, whose candidates are all tagged as
/// [`CandidateSource::User`].
pub struct UserDictionary {
    inner: SimpleDictionary,
}

impl View for UserDictionary {
    type V = Seq<RowView>;

    closed spec fn view(&self) -> Seq<RowView> {
        self.inner@
    }
}

/// The candidates of `list`, tagged as the user's.
pub open spec fn tagged(list: Seq<CandidateView>) -> Seq<CandidateView> {
    list.map_values(
        |c: CandidateView|
            CandidateView {
                surface: c.surface,
                reading: c.reading,
                score: c.score,
                source: CandidateSource::User,
            },
    )
}

/// What a user dictionary with these rows holds.
pub open spec fn user_content(rows: Seq<RowView>) -> Content {
    |reading: Seq<char>|
        tagged(dictionary::rows_content(rows, CandidateSource::System)(reading))
}

/// The rows that a user dictionary has from a text: none where there is no text,
/// or where it cannot be parsed.
pub open spec fn user_rows(text: Option<Seq<char>>) -> Seq<RowView> {
    match text {
        Some(t) => match dictionary::rows_of_text(t) {
            Ok(rows) => rows,
            Err(_) => Seq::empty(),
        },
        None => Seq::empty(),
    }
}

/// What an optional text holds.
pub open spec fn text_view(text: Option<&str>) -> Option<Seq<char>> {
    match text {
        Some(t) => Some(t@),
        None => None,
    }
}

impl UserDictionary {
    /// Loads a user dictionary from the SKK text of its file, `None` where there
    /// is no such file. A missing or malformed file gives an empty dictionary.
    pub fn load(text: Option<&str>) -> (dictionary: Self)
        requires
            text matches Some(t) ==> dictionary::loadable(t@),
        ensures
            dictionary.wf(),
            dictionary@ == user_rows(text_view(text)),
    {
        match text {
            Some(t) => match SimpleDictionary::load_from_skk_text(t) {
                Ok(inner) => UserDictionary { inner },
                Err(_) => UserDictionary::empty(),
            },
            None => UserDictionary::empty(),
        }
    }

    /// Creates an empty user dictionary.
    pub fn empty() -> (dictionary: Self)
        ensures
            dictionary.wf(),
            dictionary@ == Seq::<RowView>::empty(),
    {
        UserDictionary { inner: SimpleDictionary::empty() }
    }
}

impl DictionaryLookup for UserDictionary {
    closed spec fn wf(&self) -> bool {
        self.inner.wf()
    }

    open spec fn content(&self) -> Content {
        user_content(self@)
    }

    fn lookup(&self, reading: &str) -> (found: Vec<Candidate>) {
        let inner = self.inner.lookup(reading);
        let ghost all = candidate::candidate_views(inner@);
        let mut found: Vec<Candidate> = Vec::new();
        for c in it: inner.into_iter()
            invariant
                it.seq() == inner@,
                all == candidate::candidate_views(inner@),
                candidate::candidate_views(found@) == tagged(all).take(it.index() as int),
        {
            let ghost before = candidate::candidate_views(found@);
            let ghost i = it.index() as int;
            let mut c = c;
            c.source = CandidateSource::User;
            found.push(c);
            assert(candidate::candidate_views(found@) =~= before.push(c@));
            assert(tagged(all).take(i + 1) =~= tagged(all).take(i).push(tagged(all)[i]));
        }
        assert(tagged(all).take(all.len() as int) =~= tagged(all));
        found
    }
}

/// The scores of a user dictionary are those of dictionary entries.
proof fn lemma_user_scores(dictionary: &UserDictionary, reading: Seq<char>)
    requires
        dictionary.wf(),
    ensures
        forall|k: int|
            0 <= k < dictionary.content()(reading).len() ==> 0 <= (
            #[trigger] dictionary.content()(reading)[k]).score <= skk::MAX_ENTRY_SCORE,
{
    dictionary::lemma_content_scores(dictionary@, CandidateSource::System, reading);
}

/// A user dictionary that is missing or malformed gives nothing for any reading;
/// any other gives what the same text gives as a system dictionary, in the same
/// order, with the same surfaces, readings and scores, all tagged as the user's.
pub proof fn lemma_user_dictionary(text: Option<Seq<char>>, reading: Seq<char>)
    ensures
        ({
            let found = user_content(user_rows(text))(reading);
            match text {
                Some(t) => match dictionary::rows_of_text(t) {
                    Ok(rows) => {
                        let same = dictionary::rows_content(rows, CandidateSource::System)(
                            reading,
                        );
                        &&& found.len() == same.len()
                        &&& forall|i: int|
                            0 <= i < found.len() ==> {
                                &&& (#[trigger] found[i]).surface == same[i].surface
                                &&& found[i].reading == same[i].reading
                                &&& found[i].score == same[i].score
                                &&& found[i].source == CandidateSource::User
                            }
                    },
                    Err(_) => found.len() == 0,
                },
                None => found.len() == 0,
            }
        }),
{
    let rows = user_rows(text);
    candidate::lemma_ranked(
        dictionary::listed(
            dictionary::entries_at(rows, reading),
            reading,
            CandidateSource::System,
        ),
    );
}

// ---------------------------------------------------------------------------
// Merging
// ---------------------------------------------------------------------------

/// Score boost applied to user dictionary entries.
pub const USER_SCORE_BOOST: u32 = 50;

/// Whether `a` and `b` are the same word: same reading and same surface.
pub open spec fn same_word(a: CandidateView, b: CandidateView) -> bool {
    a.reading == b.reading && a.surface == b.surface
}

/// The candidate `c` with the boost of a user entry.
pub open spec fn boosted(c: CandidateView) -> CandidateView {
    CandidateView {
        surface: c.surface,
        reading: c.reading,
        score: c.score + USER_SCORE_BOOST,
        source: c.source,
    }
}

/// The place of the word of `c` in `list`, or the list's length.
pub open spec fn word_place(list: Seq<CandidateView>, c: CandidateView) -> int
    decreases list.len(),
{
    if list.len() == 0 || same_word(list[0], c) {
        0
    } else {
        1 + word_place(list.drop_first(), c)
    }
}

/// `list` with `c`: where the word is there already, the higher-scoring of the
/// two stays, and of equal ones the earlier.
pub open spec fn with_word(list: Seq<CandidateView>, c: CandidateView) -> Seq<CandidateView> {
    let i = word_place(list, c);
    if i == list.len() {
        list.push(c)
    } else if c.score > list[i].score {
        list.update(i, c)
    } else {
        list
    }
}

/// Every word of `list` once.
pub open spec fn words(list: Seq<CandidateView>) -> Seq<CandidateView>
    decreases list.len(),
{
    if list.len() == 0 {
        Seq::empty()
    } else {
        with_word(words(list.drop_last()), list.last())
    }
}

/// The boosted user candidates, followed by the system candidates.
pub open spec fn pooled(system: Seq<CandidateView>, user: Seq<CandidateView>) -> Seq<
    CandidateView,
> {
    user.map_values(|c: CandidateView| boosted(c)) + system
}

/// The candidates of both lists, each word once, best first.
pub open spec fn merged(system: Seq<CandidateView>, user: Seq<CandidateView>) -> Seq<
    CandidateView,
> {
    candidate::ranked(words(pooled(system, user)))
}

proof fn lemma_word_place(list: Seq<CandidateView>, c: CandidateView)
    ensures
        0 <= word_place(list, c) <= list.len(),
        word_place(list, c) < list.len() ==> same_word(list[word_place(list, c)], c),
        forall|i: int| 0 <= i < word_place(list, c) ==> !same_word(#[trigger] list[i], c),
    decreases list.len(),
{
    if list.len() > 0 && !same_word(list[0], c) {
        let rest = list.drop_first();
        lemma_word_place(rest, c);
        assert forall|i: int| 0 <= i < word_place(list, c) implies !same_word(
            #[trigger] list[i],
            c,
        ) by {
            if i > 0 {
                assert(list[i] == rest[i - 1]);
            }
        }
    }
}

/// Whether the word of `c` is in `list`, at the score of `c` or better.
pub open spec fn kept(list: Seq<CandidateView>, c: CandidateView) -> bool {
    exists|i: int|
        0 <= i < list.len() && same_word(#[trigger] list[i], c) && list[i].score >= c.score
}

proof fn lemma_with_word_kept(list: Seq<CandidateView>, c: CandidateView, d: CandidateView)
    requires
        kept(list, d) || d == c,
    ensures
        kept(with_word(list, c), d),
{
    lemma_word_place(list, c);
    let place = word_place(list, c);
    let new = with_word(list, c);
    if kept(list, d) {
        let i = choose|i: int|
            0 <= i < list.len() && same_word(#[trigger] list[i], d) && list[i].score >= d.score;
        assert(same_word(new[i], d));
    } else {
        assert(same_word(new[place], d));
    }
}

proof fn lemma_with_word_unlike(list: Seq<CandidateView>, c: CandidateView)
    requires
        order::unlike(list, same_words()),
    ensures
        order::unlike(with_word(list, c), same_words()),
{
    lemma_word_place(list, c);
    let place = word_place(list, c);
    let new = with_word(list, c);
    let same = same_words();
    assert forall|i: int, j: int|
        0 <= i < new.len() && 0 <= j < new.len() && i != j implies !same(
        #[trigger] new[i],
        #[trigger] new[j],
    ) by {
        if i < list.len() && j < list.len() {
            assert(!same(list[i], list[j]));
        } else if i < list.len() {
            assert(!same_word(list[i], c));
        } else {
            assert(!same_word(list[j], c));
        }
    }
}

/// Being the same word, as a relation.
pub open spec fn same_words() -> spec_fn(CandidateView, CandidateView) -> bool {
    |a: CandidateView, b: CandidateView| same_word(a, b)
}

/// Every word occurs once, at its best score: no two kept candidates are the same
/// word, every kept candidate is one of the list, and of every candidate of the
/// list the word is kept at its score or better.
pub proof fn lemma_words(list: Seq<CandidateView>)
    ensures
        order::unlike(words(list), same_words()),
        forall|i: int| 0 <= i < words(list).len() ==> list.contains(#[trigger] words(list)[i]),
        forall|k: int| 0 <= k < list.len() ==> kept(words(list), #[trigger] list[k]),
    decreases list.len(),
{
    if list.len() > 0 {
        let rest = list.drop_last();
        let c = list.last();
        lemma_words(rest);
        let old_words = words(rest);
        let new = words(list);
        lemma_word_place(old_words, c);
        lemma_with_word_unlike(old_words, c);
        assert forall|i: int| 0 <= i < new.len() implies list.contains(#[trigger] new[i]) by {
            if new[i] == c {
                assert(list[list.len() - 1] == c);
            } else {
                assert(old_words[i] == new[i]);
                let k = choose|k: int| 0 <= k < rest.len() && rest[k] == old_words[i];
                assert(list[k] == new[i]);
            }
        }
        assert forall|k: int| 0 <= k < list.len() implies kept(new, #[trigger] list[k]) by {
            if k < rest.len() {
                assert(kept(old_words, rest[k]));
            }
            lemma_with_word_kept(old_words, c, list[k]);
        }
    }
}

/// Merging two candidate lists keeps every word once, at its best score, where a
/// user candidate counts with its boost; nothing else is added.
pub proof fn lemma_merged(system: Seq<CandidateView>, user: Seq<CandidateView>)
    ensures
        order::unlike(merged(system, user), same_words()),
        forall|i: int|
            0 <= i < merged(system, user).len() ==> pooled(system, user).contains(
                #[trigger] merged(system, user)[i],
            ),
        forall|k: int|
            0 <= k < pooled(system, user).len() ==> kept(
                merged(system, user),
                #[trigger] pooled(system, user)[k],
            ),
        merged(system, user).len() > 0 <==> system.len() + user.len() > 0,
{
    let pool = pooled(system, user);
    let list = words(pool);
    let m = merged(system, user);
    lemma_words(pool);
    candidate::lemma_ranked(list);
    order::lemma_arranged_unlike(list, candidate::rank_order(), same_words());
    assert forall|i: int| 0 <= i < m.len() implies pool.contains(#[trigger] m[i]) by {
        order::lemma_arranged_member(list, candidate::rank_order(), m[i]);
        assert(m.contains(m[i]));
        let k = choose|k: int| 0 <= k < list.len() && list[k] == m[i];
        assert(pool.contains(list[k]));
    }
    assert forall|k: int| 0 <= k < pool.len() implies kept(m, #[trigger] pool[k]) by {
        let c = pool[k];
        assert(kept(list, c));
        let j = choose|j: int|
            0 <= j < list.len() && same_word(#[trigger] list[j], c) && list[j].score >= c.score;
        assert(list.contains(list[j]));
        order::lemma_arranged_member(list, candidate::rank_order(), list[j]);
        let i = choose|i: int| 0 <= i < m.len() && m[i] == list[j];
        assert(same_word(m[i], c));
    }
    if pool.len() > 0 {
        assert(kept(m, pool[0]));
    }
}

/// A user entry ranks above every candidate of a lower score than its boosted one.
pub proof fn lemma_user_ranks_above(
    system: Seq<CandidateView>,
    user: Seq<CandidateView>,
    u: int,
    j: int,
)
    requires
        0 <= u < user.len(),
        0 <= j < merged(system, user).len(),
        merged(system, user)[j].score < user[u].score + USER_SCORE_BOOST,
    ensures
        exists|i: int| 0 <= i < j && same_word(#[trigger] merged(system, user)[i], user[u]),
{
    let m = merged(system, user);
    let pool = pooled(system, user);
    lemma_merged(system, user);
    candidate::lemma_ranked(words(pool));
    assert(pool[u] == boosted(user[u]));
    assert(kept(m, pool[u]));
    let i = choose|i: int|
        0 <= i < m.len() && same_word(#[trigger] m[i], pool[u]) && m[i].score >= pool[u].score;
    assert(m[i].score > m[j].score);
    assert(i < j);
}

// ---------------------------------------------------------------------------
// CompositeDictionary
// ---------------------------------------------------------------------------

/// Merges results from a system dictionary and a user dictionary.
///
/// User entries receive a score boost so that they rank above system entries of
/// the same reading. Of duplicates (same reading and surface) the higher-scoring
/// entry stays.
pub struct CompositeDictionary {
    system: SimpleDictionary,
    user: Option<UserDictionary>,
}

/// What a composite dictionary holds.
pub open spec fn composite_content(system: Content, user: Option<Content>) -> Content {
    |reading: Seq<char>|
        merged(
            system(reading),
            match user {
                Some(content) => content(reading),
                None => Seq::empty(),
            },
        )
}

impl CompositeDictionary {
    /// What the system dictionary holds.
    pub closed spec fn system_content(&self) -> Content {
        self.system.content()
    }

    /// What the user dictionary holds, where there is one.
    pub closed spec fn user_content(&self) -> Option<Content> {
        match self.user {
            Some(user) => Some(user.content()),
            None => None,
        }
    }

    /// The user's candidates of every reading.
    spec fn users(&self) -> Content {
        match self.user {
            Some(user) => user.content(),
            None => |reading: Seq<char>| Seq::<CandidateView>::empty(),
        }
    }

    /// Creates a composite dictionary from a system dictionary and an optional
    /// user dictionary.
    pub fn new(system: SimpleDictionary, user: Option<UserDictionary>) -> (dictionary: Self)
        requires
            system.wf(),
            user matches Some(u) ==> u.wf(),
        ensures
            dictionary.wf(),
            dictionary.system_content() == system.content(),
            dictionary.user_content() == (match user {
                Some(u) => Some(u.content()),
                None => None,
            }),
    {
        CompositeDictionary { system, user }
    }

    /// Puts `c` into the list, unless the word is there already with the same
    /// score or a higher one.
    fn add_word(list: &mut Vec<Candidate>, c: Candidate)
        ensures
            candidate::candidate_views(final(list)@) == with_word(
                candidate::candidate_views(old(list)@),
                c@,
            ),
    {
        let ghost all = candidate::candidate_views(list@);
        proof {
            lemma_word_place(all, c@);
        }
        let mut i: usize = 0;
        while i < list.len() && !(list[i].reading == c.reading && list[i].surface == c.surface)
            invariant
                i <= list@.len(),
                all == candidate::candidate_views(list@),
                forall|k: int| 0 <= k < i ==> !same_word(#[trigger] all[k], c@),
            decreases list@.len() - i,
        {
            assert(all[i as int] == list@[i as int]@);
            i = i + 1;
        }
        proof {
            let place = word_place(all, c@);
            if i < list@.len() {
                assert(same_word(all[i as int], c@));
            }
            if place < all.len() {
                assert(same_word(all[place], c@));
            }
            assert(place == i);
        }
        if i == list.len() {
            list.push(c);
        } else if c.score > list[i].score {
            list.set(i, c);
        }
        assert(candidate::candidate_views(list@) =~= with_word(all, c@));
    }

    /// Merges two candidate lists, without duplicates.
    pub fn merge_candidates(system: Vec<Candidate>, user: Vec<Candidate>) -> (list: Vec<Candidate>)
        requires
            forall|k: int|
                0 <= k < user@.len() ==> (#[trigger] user@[k]).score + USER_SCORE_BOOST
                    <= u32::MAX,
        ensures
            candidate::candidate_views(list@) == merged(
                candidate::candidate_views(system@),
                candidate::candidate_views(user@),
            ),
    {
        let ghost pool = pooled(
            candidate::candidate_views(system@),
            candidate::candidate_views(user@),
        );
        let mut list: Vec<Candidate> = Vec::new();
        assert(candidate::candidate_views(list@) =~= words(pool.take(0)));
        for c in it: user.into_iter()
            invariant
                it.seq() == user@,
                forall|k: int|
                    0 <= k < user@.len() ==> (#[trigger] user@[k]).score + USER_SCORE_BOOST
                        <= u32::MAX,
                pool == pooled(
                    candidate::candidate_views(system@),
                    candidate::candidate_views(user@),
                ),
                candidate::candidate_views(list@) == words(pool.take(it.index() as int)),
        {
            let ghost i = it.index() as int;
            let mut c = c;
            assert(c == user@[i]);
            c.score = c.score + USER_SCORE_BOOST;
            proof {
                let head = pool.take(i + 1);
                assert(head.drop_last() =~= pool.take(i));
                assert(head.last() == c@);
            }
            Self::add_word(&mut list, c);
        }
        let ghost n = user@.len() as int;
        for c in it: system.into_iter()
            invariant
                it.seq() == system@,
                n == user@.len(),
                pool == pooled(
                    candidate::candidate_views(system@),
                    candidate::candidate_views(user@),
                ),
                candidate::candidate_views(list@) == words(pool.take(n + it.index() as int)),
        {
            let ghost i = it.index() as int;
            proof {
                let head = pool.take(n + i + 1);
                assert(head.drop_last() =~= pool.take(n + i));
                assert(head.last() == c@);
            }
            Self::add_word(&mut list, c);
        }
        assert(pool.take(n + system@.len()) =~= pool);
        rank(list)
    }

    /// Merges the candidates of one reading.
    fn merge_known(&self, reading: Ghost<Seq<char>>, system: Vec<Candidate>, user: Vec<Candidate>) -> (list: Vec<
        Candidate,
    >)
        requires
            self.wf(),
            candidate::candidate_views(system@) == self.system_content()(reading@),
            candidate::candidate_views(user@) == (match self.user_content() {
                Some(content) => content(reading@),
                None => Seq::empty(),
            }),
        ensures
            candidate::candidate_views(list@) == self.content()(reading@),
    {
        proof {
            match &self.user {
                Some(u) => {
                    lemma_user_scores(u, reading@);
                    assert forall|k: int| 0 <= k < user@.len() implies (
                    #[trigger] user@[k]).score + USER_SCORE_BOOST <= u32::MAX by {
                        assert(candidate::candidate_views(user@)[k] == user@[k]@);
                    }
                },
                None => {
                    assert(candidate::candidate_views(user@).len() == user@.len());
                },
            }
        }
        Self::merge_candidates(system, user)
    }
}

/// Takes the candidates of the next match, where its reading is `prefix`.
fn take_match(
    found: &Vec<(String, Vec<Candidate>)>,
    i: usize,
    prefix: &String,
    content: Ghost<Content>,
    text: Ghost<Seq<char>>,
) -> (result: (usize, Vec<Candidate>))
    requires
        0 < prefix@.len() <= text@.len(),
        prefix@ == text@.take(prefix@.len() as int),
        i <= found@.len(),
        dictionary::match_views(found@).skip(i as int) == dictionary::prefix_matches(
            content@,
            text@,
            prefix@.len() as int,
        ),
    ensures
        result.0 <= found@.len(),
        candidate::candidate_views(result.1@) == content@(prefix@),
        dictionary::match_views(found@).skip(result.0 as int) == dictionary::prefix_matches(
            content@,
            text@,
            prefix@.len() - 1,
        ),
{
    let ghost n = prefix@.len() as int;
    let ghost all = dictionary::match_views(found@);
    let ghost shorter = dictionary::prefix_matches(content@, text@, n - 1);
    proof {
        dictionary::lemma_prefix_matches(content@, text@, n - 1);
        if i < found@.len() {
            assert(all.skip(i as int)[0] == all[i as int]);
        }
    }
    if i < found.len() && found[i].0 == *prefix {
        proof {
            if content@(prefix@).len() == 0 {
                assert(shorter[0].reading.len() <= n - 1);
            }
            assert(all.skip(i as int).drop_first() =~= all.skip(i + 1));
            assert((seq![all[i as int]] + shorter).drop_first() =~= shorter);
        }
        (i + 1, copy_candidates(&found[i].1))
    } else {
        proof {
            if content@(prefix@).len() > 0 {
                let found_here = dictionary::prefix_matches(content@, text@, n);
                let first = MatchView { reading: prefix@, candidates: content@(prefix@) };
                assert(found_here == seq![first] + shorter);
                assert(found_here[0] == first);
                assert(all.skip(i as int)[0] == all[i as int]);
                assert(all[i as int].reading == found@[i as int].0@);
                assert(false);
            }
        }
        let none: Vec<Candidate> = Vec::new();
        assert(candidate::candidate_views(none@) =~= content@(prefix@));
        (i, none)
    }
}

impl DictionaryLookup for CompositeDictionary {
    closed spec fn wf(&self) -> bool {
        &&& self.system.wf()
        &&& self.user matches Some(u) ==> u.wf()
    }

    open spec fn content(&self) -> Content {
        composite_content(self.system_content(), self.user_content())
    }

    fn lookup(&self, reading: &str) -> (found: Vec<Candidate>) {
        let system = self.system.lookup(reading);
        let user = match &self.user {
            Some(u) => u.lookup(reading),
            None => {
                let none: Vec<Candidate> = Vec::new();
                assert(candidate::candidate_views(none@) =~= Seq::<CandidateView>::empty());
                none
            },
        };
        self.merge_known(Ghost(reading@), system, user)
    }

    fn common_prefix_search(&self, text: &str) -> (found: Vec<(String, Vec<Candidate>)>) {
        let ghost users = self.users();
        let chars = chars_of(text);
        let system = self.system.common_prefix_search(text);
        let user = match &self.user {
            Some(u) => u.common_prefix_search(text),
            None => {
                let none: Vec<(String, Vec<Candidate>)> = Vec::new();
                proof {
                    lemma_nothing_matches(text@, text@.len() as int);
                    assert(dictionary::match_views(none@) =~= Seq::<MatchView>::empty());
                }
                none
            },
        };
        let mut found: Vec<(String, Vec<Candidate>)> = Vec::new();
        let mut n: usize = chars.len();
        let mut i: usize = 0;
        let mut j: usize = 0;
        let ghost all = dictionary::prefix_matches(self.content(), text@, n as int);
        assert(dictionary::match_views(found@) + all =~= all);
        assert(dictionary::match_views(system@).skip(0) =~= dictionary::match_views(system@));
        assert(dictionary::match_views(user@).skip(0) =~= dictionary::match_views(user@));
        while n > 0
            invariant
                self.wf(),
                chars@ == text@,
                n <= chars@.len(),
                i <= system@.len(),
                j <= user@.len(),
                users == self.users(),
                dictionary::match_views(system@).skip(i as int) == dictionary::prefix_matches(
                    self.system_content(),
                    text@,
                    n as int,
                ),
                dictionary::match_views(user@).skip(j as int) == dictionary::prefix_matches(
                    users,
                    text@,
                    n as int,
                ),
                all == dictionary::prefix_matches(self.content(), text@, text@.len() as int),
                all == dictionary::match_views(found@) + dictionary::prefix_matches(
                    self.content(),
                    text@,
                    n as int,
                ),
            decreases n,
        {
            let prefix = string_of(&chars.as_slice()[0..n]);
            assert(prefix@ =~= text@.take(n as int));
            let (next_i, from_system) = take_match(
                &system,
                i,
                &prefix,
                Ghost(self.system_content()),
                Ghost(text@),
            );
            let (next_j, from_user) = take_match(&user, j, &prefix, Ghost(users), Ghost(text@));
            i = next_i;
            j = next_j;
            let ghost before = dictionary::match_views(found@);
            let ghost shorter = dictionary::prefix_matches(self.content(), text@, n - 1);
            let ghost any = from_system@.len() + from_user@.len() > 0;
            assert(candidate::candidate_views(from_system@).len() == from_system@.len());
            assert(candidate::candidate_views(from_user@).len() == from_user@.len());
            proof {
                lemma_merged(
                    candidate::candidate_views(from_system@),
                    candidate::candidate_views(from_user@),
                );
            }
            if from_system.len() > 0 || from_user.len() > 0 {
                let list = self.merge_known(Ghost(prefix@), from_system, from_user);
                let ghost m = MatchView {
                    reading: prefix@,
                    candidates: candidate::candidate_views(list@),
                };
                found.push((prefix, list));
                assert(dictionary::match_views(found@) =~= before.push(m));
                assert(before + (seq![m] + shorter) =~= dictionary::match_views(found@) + shorter);
            }
            n = n - 1;
        }
        assert(dictionary::match_views(found@) + Seq::<MatchView>::empty()
            =~= dictionary::match_views(found@));
        found
    }
}

proof fn lemma_nothing_matches(text: Seq<char>, n: int)
    ensures
        dictionary::prefix_matches(
            |reading: Seq<char>| Seq::<CandidateView>::empty(),
            text,
            n,
        ) == Seq::<MatchView>::empty(),
    decreases n,
{
    if n > 0 {
        lemma_nothing_matches(text, n - 1);
    }
}

/// The scores of a composite dictionary leave room for the selection history.
pub proof fn lemma_composite_headroom(dictionary: &CompositeDictionary)
    requires
        dictionary.wf(),
    ensures
        dictionary::headroom(dictionary.content()),
{
    let content = dictionary.content();
    assert forall|reading: Seq<char>, k: int| 0 <= k < content(reading).len() implies 0 <= (
    #[trigger] content(reading)[k]).score <= u32::MAX - 200 by {
        let system = dictionary.system.content()(reading);
        let user = dictionary.users()(reading);
        assert(content(reading) == merged(system, user));
        lemma_merged(system, user);
        dictionary::lemma_content_scores(
            dictionary.system@,
            CandidateSource::System,
            reading,
        );
        match &dictionary.user {
            Some(u) => {
                lemma_user_scores(u, reading);
            },
            None => {},
        }
        let pool = pooled(system, user);
        let i = choose|i: int| 0 <= i < pool.len() && pool[i] == content(reading)[k];
        if i < user.len() {
            assert(pool[i] == boosted(user[i]));
        } else {
            assert(pool[i] == system[i - user.len()]);
        }
    }
}

/// The scores of a system dictionary leave room for the selection history.
pub proof fn lemma_simple_headroom(dictionary: &SimpleDictionary)
    requires
        dictionary.wf(),
    ensures
        dictionary::headroom(dictionary.content()),
{
    let content = dictionary.content();
    assert forall|reading: Seq<char>, k: int| 0 <= k < content(reading).len() implies 0 <= (
    #[trigger] content(reading)[k]).score <= u32::MAX - 200 by {
        dictionary::lemma_content_scores(dictionary@, CandidateSource::System, reading);
    }
}

/// Whether scores never increase along the list.
pub open spec fn best_first(list: Seq<CandidateView>) -> bool {
    forall|i: int, j: int|
        0 <= i < j < list.len() ==> (#[trigger] list[i]).score >= (#[trigger] list[j]).score
}

/// Every dictionary lists the candidates of a reading best first.
pub proof fn lemma_lookup_best_first(
    rows: Seq<RowView>,
    system: Content,
    user: Option<Content>,
    reading: Seq<char>,
)
    ensures
        best_first(dictionary::rows_content(rows, CandidateSource::System)(reading)),
        best_first(user_content(rows)(reading)),
        best_first(composite_content(system, user)(reading)),
{
    candidate::lemma_ranked(
        dictionary::listed(
            dictionary::entries_at(rows, reading),
            reading,
            CandidateSource::System,
        ),
    );
    let own = match user {
        Some(content) => content(reading),
        None => Seq::empty(),
    };
    candidate::lemma_ranked(words(pooled(system(reading), own)));
    let sorted = dictionary::rows_content(rows, CandidateSource::System)(reading);
    let tags = user_content(rows)(reading);
    assert forall|i: int, j: int| 0 <= i < j < tags.len() implies (#[trigger] tags[i]).score >= (
    #[trigger] tags[j]).score by {
        assert(sorted[i].score >= sorted[j].score);
    }
}

/// Whether a dictionary lists the candidates of every reading best first, with
/// scores of at least zero.
pub open spec fn lists_best_first(content: Content) -> bool {
    &&& forall|reading: Seq<char>| best_first(#[trigger] content(reading))
    &&& forall|reading: Seq<char>, k: int|
        0 <= k < content(reading).len() ==> (#[trigger] content(reading)[k]).score >= 0
}

/// A system dictionary lists best first.
pub proof fn lemma_simple_lists_best_first(dictionary: &SimpleDictionary)
    requires
        dictionary.wf(),
    ensures
        lists_best_first(dictionary.content()),
{
    let content = dictionary.content();
    lemma_simple_headroom(dictionary);
    assert forall|reading: Seq<char>| best_first(#[trigger] content(reading)) by {
        lemma_lookup_best_first(dictionary@, content, None, reading);
    }
}

/// A user dictionary lists best first.
pub proof fn lemma_user_lists_best_first(dictionary: &UserDictionary)
    requires
        dictionary.wf(),
    ensures
        lists_best_first(dictionary.content()),
{
    let content = dictionary.content();
    assert forall|reading: Seq<char>| best_first(#[trigger] content(reading)) by {
        lemma_lookup_best_first(dictionary@, content, None, reading);
    }
    assert forall|reading: Seq<char>, k: int| 0 <= k < content(reading).len() implies (
    #[trigger] content(reading)[k]).score >= 0 by {
        lemma_user_scores(dictionary, reading);
    }
}

/// A composite dictionary lists best first.
pub proof fn lemma_composite_lists_best_first(dictionary: &CompositeDictionary)
    requires
        dictionary.wf(),
    ensures
        lists_best_first(dictionary.content()),
{
    let content = dictionary.content();
    lemma_composite_headroom(dictionary);
    assert forall|reading: Seq<char>| best_first(#[trigger] content(reading)) by {
        lemma_lookup_best_first(
            dictionary.system@,
            dictionary.system_content(),
            dictionary.user_content(),
            reading,
        );
    }
}

/// Whether a word is given, at `score` or better.
pub open spec fn gives(
    found: Seq<CandidateView>,
    surface: Seq<char>,
    reading: Seq<char>,
    score: int,
) -> bool {
    exists|i: int|
        0 <= i < found.len() && (#[trigger] found[i]).surface == surface && found[i].reading
            == reading && found[i].score >= score
}

/// What the user dictionary gives for a reading, nothing where there is none.
pub open spec fn users_own(user: Option<Content>, reading: Seq<char>) -> Seq<CandidateView> {
    match user {
        Some(content) => content(reading),
        None => Seq::empty(),
    }
}

/// A composite dictionary gives every word of the system dictionary at its score or
/// better, and every word of the user dictionary at 50 more or better.
pub proof fn lemma_composite_gives_all(system: Content, user: Option<Content>, reading: Seq<char>)
    ensures
        ({
            let found = composite_content(system, user)(reading);
            let listed = system(reading);
            let own = users_own(user, reading);
            &&& found == merged(listed, own)
            &&& forall|k: int|
                0 <= k < listed.len() ==> gives(
                    found,
                    (#[trigger] listed[k]).surface,
                    listed[k].reading,
                    listed[k].score,
                )
            &&& forall|k: int|
                0 <= k < own.len() ==> gives(
                    found,
                    (#[trigger] own[k]).surface,
                    own[k].reading,
                    own[k].score + 50,
                )
        }),
{
    let found = composite_content(system, user)(reading);
    let listed = system(reading);
    let own = users_own(user, reading);
    assert(found == merged(listed, own));
    assert forall|k: int| 0 <= k < listed.len() implies gives(
        found,
        (#[trigger] listed[k]).surface,
        listed[k].reading,
        listed[k].score,
    ) by {
        lemma_given(listed, own, own.len() + k);
    }
    assert forall|k: int| 0 <= k < own.len() implies gives(
        found,
        (#[trigger] own[k]).surface,
        own[k].reading,
        own[k].score + 50,
    ) by {
        lemma_given(listed, own, k);
    }
}

proof fn lemma_given(listed: Seq<CandidateView>, own: Seq<CandidateView>, p: int)
    requires
        0 <= p < listed.len() + own.len(),
    ensures
        ({
            let c = pooled(listed, own)[p];
            gives(merged(listed, own), c.surface, c.reading, c.score)
        }),
        p < own.len() ==> pooled(listed, own)[p] == boosted(own[p]),
        p >= own.len() ==> pooled(listed, own)[p] == listed[p - own.len()],
{
    let found = merged(listed, own);
    let c = pooled(listed, own)[p];
    lemma_merged(listed, own);
    assert(kept(found, c));
    let i = choose|i: int|
        0 <= i < found.len() && same_word(#[trigger] found[i], c) && found[i].score >= c.score;
    assert(found[i].surface == c.surface);
}

/// A composite dictionary gives no word twice, and nothing but what the two
/// dictionaries list: a user entry 50 higher, or a system entry as it is where that
/// scores more than every user entry of the word with its 50.
pub proof fn lemma_composite_gives_once(
    system: Content,
    user: Option<Content>,
    reading: Seq<char>,
    i: int,
)
    requires
        0 <= i < composite_content(system, user)(reading).len(),
    ensures
        ({
            let found = composite_content(system, user)(reading);
            let c = found[i];
            let own = users_own(user, reading);
            &&& forall|j: int|
                0 <= j < found.len() && j != i ==> (#[trigger] found[j]).surface != c.surface
                    || found[j].reading != c.reading
            &&& from_user(own, c) || (system(reading).contains(c) && scores_above(own, c))
        }),
{
    let found = composite_content(system, user)(reading);
    let listed = system(reading);
    let own = users_own(user, reading);
    assert(found == merged(listed, own));
    let c = found[i];
    lemma_merged(listed, own);
    let same = same_words();
    assert forall|j: int| 0 <= j < found.len() && j != i implies (#[trigger] found[j]).surface
        != c.surface || found[j].reading != c.reading by {
        assert(!same(found[j], found[i]));
    }
    lemma_given_from(listed, own, i);
}

proof fn lemma_given_from(listed: Seq<CandidateView>, own: Seq<CandidateView>, i: int)
    requires
        0 <= i < merged(listed, own).len(),
    ensures
        ({
            let c = merged(listed, own)[i];
            from_user(own, c) || (listed.contains(c) && scores_above(own, c))
        }),
{
    let pool = pooled(listed, own);
    let found = merged(listed, own);
    let c = found[i];
    order::lemma_arranged_member(words(pool), candidate::rank_order(), c);
    assert(found.contains(c));
    let p = lemma_words_first(pool, c);
    if p < own.len() {
        assert(pool[p] == boosted(own[p]));
        assert(from_user(own, c));
    } else {
        assert(listed[p - own.len()] == c);
        assert forall|k: int|
            0 <= k < own.len() && (#[trigger] own[k]).surface == c.surface && own[k].reading
                == c.reading implies own[k].score + 50 < c.score by {
            assert(pool[k] == boosted(own[k]));
            assert(same_word(pool[k], c));
        }
    }
}

/// Whether `c` is one of the user's candidates, 50 higher.
pub open spec fn from_user(own: Seq<CandidateView>, c: CandidateView) -> bool {
    exists|k: int|
        0 <= k < own.len() && (#[trigger] own[k]).surface == c.surface && own[k].reading
            == c.reading && own[k].score + 50 == c.score && own[k].source == c.source
}

/// Whether `c` scores more than every user entry of the same word with its 50.
pub open spec fn scores_above(own: Seq<CandidateView>, c: CandidateView) -> bool {
    forall|k: int|
        0 <= k < own.len() && (#[trigger] own[k]).surface == c.surface && own[k].reading
            == c.reading ==> own[k].score + 50 < c.score
}

/// What is kept of a word stands at a place before which every candidate of the word
/// scores lower.
proof fn lemma_words_first(list: Seq<CandidateView>, c: CandidateView) -> (p: int)
    requires
        words(list).contains(c),
    ensures
        0 <= p < list.len(),
        list[p] == c,
        forall|q: int| 0 <= q < p && same_word(#[trigger] list[q], c) ==> list[q].score < c.score,
    decreases list.len(),
{
    let rest = list.drop_last();
    let last = list.last();
    let before = words(rest);
    assert(list.len() > 0);
    lemma_word_place(before, last);
    let at = choose|at: int| 0 <= at < words(list).len() && words(list)[at] == c;
    if at < before.len() && before[at] == c {
        assert(before.contains(c));
        let p = lemma_words_first(rest, c);
        assert forall|q: int| 0 <= q < p && same_word(#[trigger] list[q], c) implies list[q].score
            < c.score by {
            assert(rest[q] == list[q]);
        }
        p
    } else {
        let p = list.len() - 1;
        assert(c == last);
        assert forall|q: int| 0 <= q < p && same_word(#[trigger] list[q], c) implies list[q].score
            < c.score by {
            assert(rest[q] == list[q]);
            lemma_last_is_better(rest, last, q);
        }
        p
    }
}

/// A candidate that takes the place of its word, or a new one, scores more than every
/// earlier candidate of the word.
proof fn lemma_last_is_better(rest: Seq<CandidateView>, last: CandidateView, q: int)
    requires
        with_word(words(rest), last) != words(rest),
        0 <= q < rest.len(),
        same_word(rest[q], last),
    ensures
        rest[q].score < last.score,
{
    let before = words(rest);
    lemma_words(rest);
    lemma_word_place(before, last);
    let place = word_place(before, last);
    assert(kept(before, rest[q]));
    let k = choose|k: int|
        0 <= k < before.len() && same_word(#[trigger] before[k], rest[q]) && before[k].score
            >= rest[q].score;
    assert(same_word(before[k], last));
    let same = same_words();
    if k != place && place < before.len() {
        assert(!same(before[k], before[place]));
    }
}

/// Whether candidates of equal scores stand in the order of their surfaces, and those of
/// equal surfaces in the order of their readings.
pub open spec fn ties_in_order(list: Seq<CandidateView>) -> bool {
    forall|i: int, j: int|
        0 <= i < j < list.len() ==> {
            let a = #[trigger] list[i];
            let b = #[trigger] list[j];
            &&& a.score == b.score ==> !order::text_before(b.surface, a.surface)
            &&& a.score == b.score && a.surface == b.surface ==> !order::text_before(
                b.reading,
                a.reading,
            )
        }
}

/// Every dictionary lists candidates of equal scores by their surfaces.
pub proof fn lemma_lookup_ties(
    rows: Seq<RowView>,
    system: Content,
    user: Option<Content>,
    reading: Seq<char>,
)
    ensures
        ties_in_order(dictionary::rows_content(rows, CandidateSource::System)(reading)),
        ties_in_order(user_content(rows)(reading)),
        ties_in_order(composite_content(system, user)(reading)),
{
    let list = dictionary::listed(
        dictionary::entries_at(rows, reading),
        reading,
        CandidateSource::System,
    );
    candidate::lemma_ranked_ties(list);
    candidate::lemma_ranked_ties(words(pooled(system(reading), users_own(user, reading))));
    assert(composite_content(system, user)(reading) == merged(
        system(reading),
        users_own(user, reading),
    ));
    let sorted = dictionary::rows_content(rows, CandidateSource::System)(reading);
    let tags = user_content(rows)(reading);
    assert forall|i: int, j: int| 0 <= i < j < tags.len() implies {
        let a = #[trigger] tags[i];
        let b = #[trigger] tags[j];
        &&& a.score == b.score ==> !order::text_before(b.surface, a.surface)
        &&& a.score == b.score && a.surface == b.surface ==> !order::text_before(
            b.reading,
            a.reading,
        )
    } by {
        let a = sorted[i];
        let b = sorted[j];
        assert(tags[i].surface == a.surface && tags[j].surface == b.surface);
    }
}

/// What an optional text holds is the text, where there is one.
pub proof fn lemma_text_view(text: Option<&str>)
    ensures
        text matches Some(t) ==> text_view(text) == Some(t@),
        text is None ==> text_view(text) is None,
{
}

} // verus!
