//! The in-memory query pipeline over enriched games: substring filtering,
//! stable sorting by name, rating or rank, and deduplicated property
//! listings.

use vstd::prelude::*;
use core::cmp::Ordering;
use crate::cli::{Data, SortOrder};
use crate::game::Game;
use crate::text::{
    is_substring, lemma_lex_le_total, lemma_lex_le_trans, lemma_lex_lt_trans, lex_le, lex_lt,
    lower_of, str_contains, str_eq, str_le, str_lt,
};

verus! {

/// Ordering of two optional keys: both absent compare equal, an absent key
/// goes after every present one, and two present keys compare by value,
/// reversed when `reverse` is set.
pub open spec fn ord_for_option_spec(a: Option<u64>, b: Option<u64>, reverse: bool) -> Ordering {
    match (a, b) {
        (Option::None, Option::None) => Ordering::Equal,
        (Option::None, Option::Some(_)) => Ordering::Greater,
        (Option::Some(_), Option::None) => Ordering::Less,
        (Option::Some(x), Option::Some(y)) => if x == y {
            Ordering::Equal
        } else if (x < y) != reverse {
            Ordering::Less
        } else {
            Ordering::Greater
        },
    }
}

/// Compares two optional keys, absent keys last, present keys by value and
/// reversed when `reverse` is set.
pub fn ord_for_option(a: Option<u64>, b: Option<u64>, reverse: bool) -> (r: Ordering)
    ensures
        r == ord_for_option_spec(a, b, reverse),
{
    match (a, b) {
        (Option::None, Option::None) => Ordering::Equal,
        (Option::None, Option::Some(_)) => Ordering::Greater,
        (Option::Some(_), Option::None) => Ordering::Less,
        (Option::Some(x), Option::Some(y)) => {
            if x == y {
                Ordering::Equal
            } else if (x < y) != reverse {
                Ordering::Less
            } else {
                Ordering::Greater
            }
        },
    }
}

/// Rating key of a game: present only after enrichment.
pub open spec fn rating_key(g: Game) -> Option<u64> {
    match g.details {
        Some(d) => Some(d.rating),
        None => None,
    }
}

/// Rank key of a game: present only when the game is enriched and ranked.
pub open spec fn rank_key(g: Game) -> Option<u64> {
    match g.details {
        Some(d) => match d.rank {
            Some(r) => Some(r as u64),
            None => None,
        },
        None => None,
    }
}

/// `a` sorts no later than `b` under the criterion: name ascending, rating
/// descending with unrated games last, rank ascending with unranked games
/// last.
pub open spec fn key_le(order: SortOrder, a: Game, b: Game) -> bool {
    match order {
        SortOrder::Name => lex_le(a.name@, b.name@),
        SortOrder::Rating => ord_for_option_spec(rating_key(a), rating_key(b), true)
            != Ordering::Greater,
        SortOrder::Rank => ord_for_option_spec(rank_key(a), rank_key(b), false)
            != Ordering::Greater,
    }
}

/// Two games that sort together either way around.
pub open spec fn same_key(order: SortOrder, a: Game, b: Game) -> bool {
    key_le(order, a, b) && key_le(order, b, a)
}

/// The sort relation compares any two games, one way or the other.
pub proof fn lemma_key_le_total(order: SortOrder, a: Game, b: Game)
    ensures
        key_le(order, a, b) || key_le(order, b, a),
{
    match order {
        SortOrder::Name => lemma_lex_le_total(a.name@, b.name@),
        _ => {},
    }
}

/// The sort relation is transitive.
pub proof fn lemma_key_le_trans(order: SortOrder, a: Game, b: Game, c: Game)
    requires
        key_le(order, a, b),
        key_le(order, b, c),
    ensures
        key_le(order, a, c),
{
    match order {
        SortOrder::Name => lemma_lex_le_trans(a.name@, b.name@, c.name@),
        _ => {},
    }
}

/// Decides `key_le` for two games.
pub fn game_le(order: &SortOrder, a: &Game, b: &Game) -> (r: bool)
    ensures
        r == key_le(*order, *a, *b),
{
    match order {
        SortOrder::Name => str_le(a.name.as_str(), b.name.as_str()),
        SortOrder::Rating => {
            let ka: Option<u64> = match &a.details {
                Some(d) => Some(d.rating),
                None => None,
            };
            let kb: Option<u64> = match &b.details {
                Some(d) => Some(d.rating),
                None => None,
            };
            match ord_for_option(ka, kb, true) {
                Ordering::Greater => false,
                _ => true,
            }
        },
        SortOrder::Rank => {
            let ka: Option<u64> = match &a.details {
                Some(d) => match d.rank {
                    Some(r) => Some(r as u64),
                    None => None,
                },
                None => None,
            };
            let kb: Option<u64> = match &b.details {
                Some(d) => match d.rank {
                    Some(r) => Some(r as u64),
                    None => None,
                },
                None => None,
            };
            match ord_for_option(ka, kb, false) {
                Ordering::Greater => false,
                _ => true,
            }
        },
    }
}

/// Stable insertion of `x` into `s`: `x` lands after every element that
/// sorts no later than it, and before the rest.
pub open spec fn insert_sorted(order: SortOrder, s: Seq<Game>, x: Game) -> Seq<Game>
    decreases s.len(),
{
    if s.len() == 0 {
        seq![x]
    } else if key_le(order, s.last(), x) {
        s.push(x)
    } else {
        insert_sorted(order, s.drop_last(), x).push(s.last())
    }
}

/// The sorted permutation of `s` under the criterion: stable insertion
/// sort, element by element.
pub open spec fn sort_spec(order: SortOrder, s: Seq<Game>) -> Seq<Game>
    decreases s.len(),
{
    if s.len() == 0 {
        Seq::empty()
    } else {
        insert_sorted(order, sort_spec(order, s.drop_last()), s.last())
    }
}

/// Inserting at the position whose predecessor sorts no later than `x`, and
/// whose suffix sorts strictly after `x`, realizes `insert_sorted`.
proof fn lemma_insert_sorted_at(order: SortOrder, s: Seq<Game>, x: Game, j: int)
    requires
        0 <= j <= s.len(),
        forall|m: int| j <= m < s.len() ==> !key_le(order, #[trigger] s[m], x),
        j > 0 ==> key_le(order, s[j - 1], x),
    ensures
        insert_sorted(order, s, x) == s.take(j) + seq![x] + s.skip(j),
    decreases s.len(),
{
    if j == s.len() {
        if s.len() == 0 {
            assert(insert_sorted(order, s, x) =~= s.take(j) + seq![x] + s.skip(j));
        } else {
            assert(key_le(order, s[j - 1], x));
            assert(s.last() == s[j - 1]);
            assert(insert_sorted(order, s, x) == s.push(x));
            assert(s.push(x) =~= s.take(j) + seq![x] + s.skip(j));
        }
    } else {
        assert(!key_le(order, s[s.len() - 1], x));
        let t = s.drop_last();
        assert(forall|m: int| j <= m < t.len() ==> !key_le(order, #[trigger] t[m], x));
        lemma_insert_sorted_at(order, t, x, j);
        assert(insert_sorted(order, s, x) == insert_sorted(order, t, x).push(s.last()));
        assert((t.take(j) + seq![x] + t.skip(j)).push(s.last()) =~= s.take(j) + seq![x] + s.skip(
            j,
        ));
    }
}

/// Sorts games by the criterion; ties keep their original relative order.
pub fn sort_games(games: Vec<Game>, order: &SortOrder) -> (r: Vec<Game>)
    ensures
        r@ == sort_spec(*order, games@),
{
    let ghost orig = games@;
    let mut rem = games;
    let mut out: Vec<Game> = Vec::new();
    let ghost mut k: int = 0;
    proof {
        assert(orig.skip(0) =~= orig);
        assert(orig.take(0) =~= Seq::<Game>::empty());
    }
    while rem.len() > 0
        invariant
            0 <= k <= orig.len(),
            rem@ == orig.skip(k),
            out@ == sort_spec(*order, orig.take(k)),
        decreases rem@.len(),
    {
        let x = rem.remove(0);
        proof {
            assert(orig.skip(k).remove(0) =~= orig.skip(k + 1));
            assert(x == orig[k]);
        }
        let ghost out_before = out@;
        let mut j: usize = out.len();
        loop
            invariant
                j <= out@.len(),
                out@ == out_before,
                forall|m: int| j <= m < out@.len() ==> !key_le(*order, #[trigger] out@[m], x),
            ensures
                j <= out@.len(),
                out@ == out_before,
                forall|m: int| j <= m < out@.len() ==> !key_le(*order, #[trigger] out@[m], x),
                j > 0 ==> key_le(*order, out@[j - 1], x),
            decreases j,
        {
            if j == 0 {
                break ;
            }
            if game_le(order, &out[j - 1], &x) {
                break ;
            }
            j = j - 1;
        }
        out.insert(j, x);
        proof {
            lemma_insert_sorted_at(*order, out_before, x, j as int);
            assert(out@ =~= out_before.take(j as int) + seq![x] + out_before.skip(j as int));
            assert(orig.take(k + 1).drop_last() =~= orig.take(k));
            assert(orig.take(k + 1).last() == orig[k]);
            assert(out@ == sort_spec(*order, orig.take(k + 1)));
            k = k + 1;
        }
    }
    proof {
        assert(orig.take(k) =~= orig);
    }
    out
}

/// Inserting adds exactly one occurrence of `x` to the sequence's contents.
proof fn lemma_insert_sorted_multiset(order: SortOrder, s: Seq<Game>, x: Game)
    ensures
        insert_sorted(order, s, x).to_multiset() == s.to_multiset().insert(x),
    decreases s.len(),
{
    broadcast use vstd::seq_lib::group_to_multiset_ensures;

    if s.len() == 0 {
        assert(seq![x] =~= Seq::<Game>::empty().push(x));
        assert(s.to_multiset().insert(x) =~= seq![x].to_multiset());
    } else if key_le(order, s.last(), x) {
        assert(s.push(x).to_multiset() =~= s.to_multiset().insert(x));
    } else {
        let t = s.drop_last();
        lemma_insert_sorted_multiset(order, t, x);
        assert(s =~= t.push(s.last()));
        assert(s.to_multiset() =~= t.to_multiset().insert(s.last()));
        assert(insert_sorted(order, s, x).to_multiset() =~= insert_sorted(
            order,
            t,
            x,
        ).to_multiset().insert(s.last()));
        assert(t.to_multiset().insert(x).insert(s.last()) =~= t.to_multiset().insert(
            s.last(),
        ).insert(x));
    }
}

/// The sorted sequence is a permutation of its input: same games, same
/// multiplicities.
pub proof fn lemma_sort_permutation(order: SortOrder, s: Seq<Game>)
    ensures
        sort_spec(order, s).to_multiset() == s.to_multiset(),
    decreases s.len(),
{
    broadcast use vstd::seq_lib::group_to_multiset_ensures;

    if s.len() > 0 {
        lemma_sort_permutation(order, s.drop_last());
        lemma_insert_sorted_multiset(order, sort_spec(order, s.drop_last()), s.last());
        assert(s =~= s.drop_last().push(s.last()));
        assert(s.to_multiset() =~= s.drop_last().to_multiset().insert(s.last()));
    }
}

/// Every pair of the sequence is ordered by the sort relation.
pub open spec fn sorted_by_key(order: SortOrder, s: Seq<Game>) -> bool {
    forall|i: int, j: int|
        0 <= i < j < s.len() ==> key_le(order, #[trigger] s[i], #[trigger] s[j])
}

/// Everything in the sequence sorts no later than `y`, so inserting an `x`
/// that also sorts no later than `y` keeps that bound.
proof fn lemma_insert_sorted_upper_bound(order: SortOrder, s: Seq<Game>, x: Game, y: Game)
    requires
        forall|i: int| 0 <= i < s.len() ==> key_le(order, #[trigger] s[i], y),
        key_le(order, x, y),
    ensures
        forall|i: int|
            0 <= i < insert_sorted(order, s, x).len() ==> key_le(
                order,
                #[trigger] insert_sorted(order, s, x)[i],
                y,
            ),
    decreases s.len(),
{
    if s.len() == 0 {
    } else if key_le(order, s.last(), x) {
        assert forall|i: int| 0 <= i < s.push(x).len() implies key_le(
            order,
            #[trigger] s.push(x)[i],
            y,
        ) by {
            if i < s.len() {
                assert(s.push(x)[i] == s[i]);
            } else {
                assert(s.push(x)[i] == x);
            }
        }
    } else {
        let t = s.drop_last();
        lemma_insert_sorted_upper_bound(order, t, x, y);
        let w = insert_sorted(order, t, x);
        assert forall|i: int| 0 <= i < w.push(s.last()).len() implies key_le(
            order,
            #[trigger] w.push(s.last())[i],
            y,
        ) by {
            if i < w.len() {
                assert(w.push(s.last())[i] == w[i]);
            } else {
                assert(w.push(s.last())[i] == s.last());
                assert(s[s.len() - 1] == s.last());
            }
        }
    }
}

/// Stable insertion into a sorted sequence keeps it sorted.
proof fn lemma_insert_sorted_ordered(order: SortOrder, s: Seq<Game>, x: Game)
    requires
        sorted_by_key(order, s),
    ensures
        sorted_by_key(order, insert_sorted(order, s, x)),
    decreases s.len(),
{
    if s.len() == 0 {
    } else if key_le(order, s.last(), x) {
        let r = s.push(x);
        assert forall|i: int, j: int| 0 <= i < j < r.len() implies key_le(
            order,
            #[trigger] r[i],
            #[trigger] r[j],
        ) by {
            if j < s.len() {
                assert(r[i] == s[i] && r[j] == s[j]);
            } else {
                assert(r[j] == x);
                assert(r[i] == s[i]);
                if i < s.len() - 1 {
                    assert(key_le(order, s[i], s[s.len() - 1]));
                    lemma_key_le_trans(order, s[i], s[s.len() - 1], x);
                } else {
                    assert(s[i] == s.last());
                }
            }
        }
    } else {
        let t = s.drop_last();
        assert(forall|i: int, j: int|
            0 <= i < j < t.len() ==> key_le(order, #[trigger] t[i], #[trigger] t[j]));
        lemma_insert_sorted_ordered(order, t, x);
        let w = insert_sorted(order, t, x);
        lemma_key_le_total(order, s.last(), x);
        assert(key_le(order, x, s.last()));
        assert(forall|i: int| 0 <= i < t.len() ==> key_le(order, #[trigger] t[i], s.last()));
        lemma_insert_sorted_upper_bound(order, t, x, s.last());
        let r = w.push(s.last());
        assert forall|i: int, j: int| 0 <= i < j < r.len() implies key_le(
            order,
            #[trigger] r[i],
            #[trigger] r[j],
        ) by {
            if j < w.len() {
                assert(r[i] == w[i] && r[j] == w[j]);
            } else {
                assert(r[j] == s.last());
                assert(r[i] == w[i]);
            }
        }
    }
}

/// The sorted sequence is ordered pair by pair under the sort relation.
pub proof fn lemma_sort_sorted(order: SortOrder, s: Seq<Game>)
    ensures
        sorted_by_key(order, sort_spec(order, s)),
    decreases s.len(),
{
    if s.len() > 0 {
        lemma_sort_sorted(order, s.drop_last());
        lemma_insert_sorted_ordered(order, sort_spec(order, s.drop_last()), s.last());
    }
}

/// The games of `s` whose key ties with `x0`, in their order in `s`.
pub open spec fn key_class(order: SortOrder, s: Seq<Game>, x0: Game) -> Seq<Game>
    decreases s.len(),
{
    if s.len() == 0 {
        Seq::empty()
    } else {
        let front = key_class(order, s.drop_last(), x0);
        if same_key(order, s.last(), x0) {
            front.push(s.last())
        } else {
            front
        }
    }
}

/// Inserting `x` never crosses a game whose key ties with `x`: the key class
/// of any tie value grows only at its end.
proof fn lemma_insert_sorted_key_class(order: SortOrder, t: Seq<Game>, x: Game, x0: Game)
    ensures
        key_class(order, insert_sorted(order, t, x), x0) == if same_key(order, x, x0) {
            key_class(order, t, x0).push(x)
        } else {
            key_class(order, t, x0)
        },
    decreases t.len(),
{
    if t.len() == 0 {
        assert(seq![x].drop_last() =~= Seq::<Game>::empty());
        assert(seq![x].last() == x);
        assert(key_class(order, Seq::<Game>::empty(), x0) == Seq::<Game>::empty());
        assert(t =~= Seq::<Game>::empty());
    } else if key_le(order, t.last(), x) {
        assert(t.push(x).drop_last() =~= t);
        assert(t.push(x).last() == x);
    } else {
        lemma_insert_sorted_key_class(order, t.drop_last(), x, x0);
        let w = insert_sorted(order, t.drop_last(), x);
        assert(w.push(t.last()).drop_last() =~= w);
        assert(w.push(t.last()).last() == t.last());
        if same_key(order, x, x0) && same_key(order, t.last(), x0) {
            lemma_key_le_trans(order, t.last(), x0, x);
            assert(false);
        }
    }
}

/// Stability: the games of any one key class appear in the sorted sequence
/// exactly in their original relative order.
pub proof fn lemma_sort_stable(order: SortOrder, s: Seq<Game>, x0: Game)
    ensures
        key_class(order, sort_spec(order, s), x0) == key_class(order, s, x0),
    decreases s.len(),
{
    if s.len() > 0 {
        lemma_sort_stable(order, s.drop_last(), x0);
        lemma_insert_sorted_key_class(order, sort_spec(order, s.drop_last()), s.last(), x0);
    }
}

/// `a` sorts no later than `b` as optional keys: absent keys last, present
/// keys by value, reversed when `reverse` is set.
pub open spec fn opt_le(a: Option<u64>, b: Option<u64>, reverse: bool) -> bool {
    ord_for_option_spec(a, b, reverse) != Ordering::Greater
}

/// Sorting by rating is descending and places every unrated game after
/// every rated one, whatever the input order.
pub proof fn lemma_sort_by_rating(s: Seq<Game>)
    ensures
        forall|i: int, j: int|
            0 <= i < j < sort_spec(SortOrder::Rating, s).len() ==> opt_le(
                rating_key(#[trigger] sort_spec(SortOrder::Rating, s)[i]),
                rating_key(#[trigger] sort_spec(SortOrder::Rating, s)[j]),
                true,
            ),
{
    lemma_sort_sorted(SortOrder::Rating, s);
}

/// Sorting by rank is ascending and places every unranked game after every
/// ranked one, whatever the input order.
pub proof fn lemma_sort_by_rank(s: Seq<Game>)
    ensures
        forall|i: int, j: int|
            0 <= i < j < sort_spec(SortOrder::Rank, s).len() ==> opt_le(
                rank_key(#[trigger] sort_spec(SortOrder::Rank, s)[i]),
                rank_key(#[trigger] sort_spec(SortOrder::Rank, s)[j]),
                false,
            ),
{
    lemma_sort_sorted(SortOrder::Rank, s);
}

/// A game matches the query under the data selection: by its name, or by
/// any of its mechanics or categories, case-insensitively. A game without
/// details never matches a mechanics or categories filter.
pub open spec fn game_matches(g: Game, data: Data, q: Seq<char>) -> bool {
    match data {
        Data::Games => is_substring(lower_of(g.name@), lower_of(q)),
        Data::Mechanics => match g.details {
            Some(d) => seq_any_matches(d.mechanics@, q),
            None => false,
        },
        Data::Categories => match g.details {
            Some(d) => seq_any_matches(d.categories@, q),
            None => false,
        },
    }
}

/// Some entry of `vs` contains the query, case-insensitively.
pub open spec fn seq_any_matches(vs: Seq<String>, q: Seq<char>) -> bool {
    exists|i: int|
        0 <= i < vs.len() && is_substring(lower_of((#[trigger] vs[i])@), lower_of(q))
}

/// Whether any entry of `vs` contains `q`, case-insensitively.
fn any_matches(vs: &Vec<String>, q: &str) -> (r: bool)
    ensures
        r == seq_any_matches(vs@, q@),
{
    let m = vs.len();
    let mut i: usize = 0;
    while i < m
        invariant
            i <= m == vs@.len(),
            forall|j: int|
                0 <= j < i ==> !is_substring(lower_of((#[trigger] vs@[j])@), lower_of(q@)),
        decreases m - i,
    {
        if str_contains(vs[i].as_str(), q) {
            return true;
        }
        i = i + 1;
    }
    false
}

/// Tests one game against the filter.
pub fn game_matches_query(g: &Game, data: &Data, q: &str) -> (r: bool)
    ensures
        r == game_matches(*g, *data, q@),
{
    match data {
        Data::Games => str_contains(g.name.as_str(), q),
        Data::Mechanics => match &g.details {
            Some(d) => any_matches(&d.mechanics, q),
            None => false,
        },
        Data::Categories => match &g.details {
            Some(d) => any_matches(&d.categories, q),
            None => false,
        },
    }
}

/// The games of `s` that match the query, in their original order.
pub open spec fn filter_spec(s: Seq<Game>, data: Data, q: Seq<char>) -> Seq<Game>
    decreases s.len(),
{
    if s.len() == 0 {
        Seq::empty()
    } else {
        let front = filter_spec(s.drop_last(), data, q);
        if game_matches(s.last(), data, q) {
            front.push(s.last())
        } else {
            front
        }
    }
}

/// Keeps exactly the games that match the query, in order.
pub fn filter_games(games: Vec<Game>, data: &Data, query: &str) -> (r: Vec<Game>)
    ensures
        r@ == filter_spec(games@, *data, query@),
{
    let ghost orig = games@;
    let mut out: Vec<Game> = Vec::new();
    let mut rem = games;
    let ghost mut k: int = 0;
    proof {
        assert(orig.skip(0) =~= orig);
        assert(orig.take(0) =~= Seq::<Game>::empty());
    }
    while rem.len() > 0
        invariant
            0 <= k <= orig.len(),
            rem@ == orig.skip(k),
            out@ == filter_spec(orig.take(k), *data, query@),
        decreases rem@.len(),
    {
        let g = rem.remove(0);
        proof {
            assert(orig.skip(k).remove(0) =~= orig.skip(k + 1));
            assert(g == orig[k]);
            assert(orig.take(k + 1).drop_last() =~= orig.take(k));
            assert(orig.take(k + 1).last() == orig[k]);
        }
        if game_matches_query(&g, data, query) {
            out.push(g);
        }
        proof {
            k = k + 1;
        }
    }
    proof {
        assert(orig.take(k) =~= orig);
    }
    out
}

/// The selected property sequence of a game: its mechanics or categories
/// when it is enriched, nothing otherwise or under the `Games` selection.
pub open spec fn selected_props(g: Game, data: Data) -> Seq<String> {
    match g.details {
        Some(d) => match data {
            Data::Mechanics => d.mechanics@,
            Data::Categories => d.categories@,
            Data::Games => Seq::empty(),
        },
        None => Seq::empty(),
    }
}

/// `v` occurs among the selected properties of `g`.
pub open spec fn game_has_prop(g: Game, data: Data, v: Seq<char>) -> bool {
    exists|j: int|
        0 <= j < selected_props(g, data).len() && (#[trigger] selected_props(g, data)[j])@ == v
}

/// `v` occurs as a selected property of some game of `s`.
pub open spec fn has_property(s: Seq<Game>, data: Data, v: Seq<char>) -> bool {
    exists|i: int| 0 <= i < s.len() && game_has_prop(#[trigger] s[i], data, v)
}

/// Entries are strictly ascending: sorted and free of duplicates.
pub open spec fn strictly_ascending(vs: Seq<String>) -> bool {
    forall|k1: int, k2: int|
        0 <= k1 < k2 < vs.len() ==> lex_lt((#[trigger] vs[k1])@, (#[trigger] vs[k2])@)
}

/// The character sequences present in `vs`.
pub open spec fn views_of(vs: Seq<String>) -> Set<Seq<char>> {
    Set::new(|v: Seq<char>| exists|k: int| 0 <= k < vs.len() && (#[trigger] vs[k])@ == v)
}

/// Inserts `v` into the strictly ascending `out`, unless an equal entry is
/// already there.
fn insert_unique(out: &mut Vec<String>, v: &String)
    requires
        strictly_ascending(old(out)@),
    ensures
        strictly_ascending(final(out)@),
        views_of(final(out)@) == views_of(old(out)@).insert(v@),
{
    let ghost orig = out@;
    let mut j: usize = 0;
    loop
        invariant
            out@ == orig,
            j <= out@.len(),
            forall|k: int| 0 <= k < j ==> lex_lt((#[trigger] out@[k])@, v@),
        ensures
            out@ == orig,
            j <= out@.len(),
            forall|k: int| 0 <= k < j ==> lex_lt((#[trigger] out@[k])@, v@),
            j < out@.len() ==> lex_le(v@, out@[j as int]@),
        decreases out@.len() - j,
    {
        if j == out.len() {
            break ;
        }
        if !str_lt(out[j].as_str(), v.as_str()) {
            proof {
                lemma_lex_le_total(v@, out@[j as int]@);
                lemma_lex_le_total(v@, v@);
            }
            break ;
        }
        j = j + 1;
    }
    if j < out.len() && str_eq(out[j].as_str(), v.as_str()) {
        proof {
            assert(views_of(out@).contains(v@));
            assert(views_of(out@) =~= views_of(orig).insert(v@));
        }
        return ;
    }
    out.insert(j, v.clone());
    proof {
        let newv = out@;
        assert(newv =~= orig.take(j as int) + seq![*v] + orig.skip(j as int));
        assert forall|k1: int, k2: int| 0 <= k1 < k2 < newv.len() implies lex_lt(
            (#[trigger] newv[k1])@,
            (#[trigger] newv[k2])@,
        ) by {
            let ji = j as int;
            if k1 < ji {
                assert(newv[k1] == orig[k1]);
            } else if k1 == ji {
                assert(newv[k1] == *v);
            } else {
                assert(newv[k1] == orig[k1 - 1]);
            }
            if k2 < ji {
                assert(newv[k2] == orig[k2]);
            } else if k2 == ji {
                assert(newv[k2] == *v);
            } else {
                assert(newv[k2] == orig[k2 - 1]);
            }
            if k2 < ji {
            } else if k2 == ji {
                assert(lex_lt(orig[k1]@, v@));
            } else if k1 == ji {
                assert(ji < orig.len());
                assert(lex_le(v@, orig[ji]@) && v@ != orig[ji]@);
                if ji < k2 - 1 {
                    lemma_lex_lt_trans(v@, orig[ji]@, orig[k2 - 1]@);
                }
            } else if k1 < ji {
                if ji <= k2 - 1 - 1 + 1 && k1 < k2 - 1 {
                    assert(lex_lt(orig[k1]@, orig[k2 - 1]@));
                } else {
                    assert(k2 - 1 == k1);
                    assert(false);
                }
            } else {
                assert(lex_lt(orig[k1 - 1]@, orig[k2 - 1]@));
            }
        }
        assert forall|u: Seq<char>| #[trigger] views_of(newv).contains(u) implies views_of(
            orig,
        ).insert(v@).contains(u) by {
            let k = choose|k: int| 0 <= k < newv.len() && (#[trigger] newv[k])@ == u;
            if k < j as int {
                assert(orig[k]@ == u);
            } else if k == j as int {
                assert(u == v@);
            } else {
                assert(orig[k - 1]@ == u);
            }
        }
        assert forall|u: Seq<char>| #[trigger] views_of(orig).insert(v@).contains(u)
            implies views_of(newv).contains(u) by {
            if u == v@ {
                assert(newv[j as int]@ == u);
            } else {
                let k = choose|k: int| 0 <= k < orig.len() && (#[trigger] orig[k])@ == u;
                if k < j as int {
                    assert(newv[k]@ == u);
                } else {
                    assert(newv[k + 1]@ == u);
                }
            }
        }
        assert(views_of(newv) =~= views_of(orig).insert(v@));
    }
}

/// Extending the scanned prefix by one game adds exactly that game's
/// properties.
proof fn lemma_has_property_step(s: Seq<Game>, data: Data, i: int, v: Seq<char>)
    requires
        0 <= i < s.len(),
    ensures
        has_property(s.take(i + 1), data, v) <==> (has_property(s.take(i), data, v)
            || game_has_prop(s[i], data, v)),
{
    let a = s.take(i + 1);
    let b = s.take(i);
    if has_property(a, data, v) {
        let i2 = choose|i2: int| 0 <= i2 < a.len() && game_has_prop(#[trigger] a[i2], data, v);
        if i2 < i {
            assert(b[i2] == a[i2]);
            assert(game_has_prop(b[i2], data, v));
        } else {
            assert(a[i2] == s[i]);
        }
    }
    if has_property(b, data, v) {
        let i2 = choose|i2: int| 0 <= i2 < b.len() && game_has_prop(#[trigger] b[i2], data, v);
        assert(a[i2] == b[i2]);
        assert(game_has_prop(a[i2], data, v));
    }
    if game_has_prop(s[i], data, v) {
        assert(a[i] == s[i]);
        assert(game_has_prop(a[i], data, v));
    }
}

/// The selected property vector of a game, when it has one.
fn selected_props_ref<'a>(g: &'a Game, data: &Data) -> (r: Option<&'a Vec<String>>)
    ensures
        match r {
            Some(vs) => selected_props(*g, *data) == vs@,
            None => selected_props(*g, *data) == Seq::<String>::empty(),
        },
{
    match &g.details {
        Some(d) => match data {
            Data::Mechanics => Some(&d.mechanics),
            Data::Categories => Some(&d.categories),
            Data::Games => None,
        },
        None => None,
    }
}

/// Every property value of the enriched games, deduplicated and in
/// ascending lexicographic order.
pub fn distinct_properties(games: &Vec<Game>, data: &Data) -> (r: Vec<String>)
    ensures
        strictly_ascending(r@),
        forall|v: Seq<char>| #[trigger]
            views_of(r@).contains(v) <==> has_property(games@, *data, v),
{
    let mut out: Vec<String> = Vec::new();
    let gn = games.len();
    let mut i: usize = 0;
    proof {
        assert(games@.take(0) =~= Seq::<Game>::empty());
    }
    while i < gn
        invariant
            i <= gn == games@.len(),
            strictly_ascending(out@),
            forall|v: Seq<char>| #[trigger]
                views_of(out@).contains(v) <==> has_property(games@.take(i as int), *data, v),
        decreases gn - i,
    {
        match selected_props_ref(&games[i], data) {
            None => {
                proof {
                    assert forall|v: Seq<char>| #[trigger]
                        views_of(out@).contains(v) <==> has_property(
                        games@.take(i + 1),
                        *data,
                        v,
                    ) by {
                        lemma_has_property_step(games@, *data, i as int, v);
                        assert(!game_has_prop(games@[i as int], *data, v));
                    }
                }
            },
            Some(props) => {
                let pn = props.len();
                let ghost pseq = props@;
                let mut j: usize = 0;
                while j < pn
                    invariant
                        j <= pn == pseq.len(),
                        props@ == pseq,
                        pseq == selected_props(games@[i as int], *data),
                        i < games@.len(),
                        strictly_ascending(out@),
                        forall|v: Seq<char>| #[trigger]
                            views_of(out@).contains(v) <==> (has_property(
                                games@.take(i as int),
                                *data,
                                v,
                            ) || exists|j2: int|
                                0 <= j2 < j && (#[trigger] pseq[j2])@ == v),
                    decreases pn - j,
                {
                    insert_unique(&mut out, &props[j]);
                    proof {
                        assert forall|v: Seq<char>| #[trigger]
                            views_of(out@).contains(v) <==> (has_property(
                                games@.take(i as int),
                                *data,
                                v,
                            ) || exists|j2: int|
                                0 <= j2 < j + 1 && (#[trigger] pseq[j2])@ == v) by {
                            if v == pseq[j as int]@ {
                                let jw: int = j as int;
                                assert(0 <= jw < j + 1 && pseq[jw]@ == v);
                            }
                        }
                    }
                    j = j + 1;
                }
                proof {
                    assert forall|v: Seq<char>| #[trigger]
                        views_of(out@).contains(v) <==> has_property(
                        games@.take(i + 1),
                        *data,
                        v,
                    ) by {
                        lemma_has_property_step(games@, *data, i as int, v);
                        if game_has_prop(games@[i as int], *data, v) {
                            let j2 = choose|j2: int|
                                0 <= j2 < pseq.len() && (#[trigger] pseq[j2])@ == v;
                            assert(0 <= j2 < pn && pseq[j2]@ == v);
                        }
                    }
                }
            },
        }
        i = i + 1;
    }
    proof {
        assert(games@.take(gn as int) =~= games@);
    }
    out
}

} // verus!
