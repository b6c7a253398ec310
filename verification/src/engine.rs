//! The search engine: a depth-first backtracking traversal of the board,
//! pruned by live prefix queries against the dictionary, gathering every
//! dictionary word some legal path spells.

use vstd::prelude::*;
use vstd::seq_lib::*;
use vstd::set_lib::*;
use vstd::string::StrSliceExecFns;
use vstd::string::StringExecFns;

use crate::board::adjacent;
use crate::board::lemma_neighbors_membership;
use crate::board::Board;
use crate::board::Cell;
use crate::dictionary::dead_prefix;
use crate::dictionary::fst_words;
use crate::dictionary::prefix_search;
use crate::dictionary::SearchResult;
use crate::order::lemma_lex_lt_le_trans;
use crate::order::lemma_lex_total;
use crate::order::lex_le;
use crate::order::lex_lt;
use crate::order::sorted_listing;
use crate::order::str_le;

verus! {

/// A legal path: every cell lies on the board, consecutive cells are
/// adjacent, and no position is stepped on twice.
pub open spec fn path_wf(b: Board, p: Seq<Cell>) -> bool {
    &&& forall|i: int| 0 <= i < p.len() ==> b.on_board(#[trigger] p[i])
    &&& forall|i: int| 0 < i < p.len() ==> adjacent(p[i - 1], #[trigger] p[i])
    &&& forall|i: int, j: int|
        #![trigger p[i], p[j]]
        0 <= i < j < p.len() ==> !(p[i].x == p[j].x && p[i].y == p[j].y)
}

/// The candidate string a path spells: its cells' letters in order.
pub open spec fn word_of(p: Seq<Cell>) -> Seq<char> {
    p.map_values(|c: Cell| c.contents)
}

/// The dictionary words spelled by some legal extension of `path`
/// (including `path` itself).
pub open spec fn reachable_words(b: Board, f: fst::raw::Fst<Vec<u8>>, path: Seq<Cell>) -> Set<
    Seq<char>,
> {
    Set::new(
        |w: Seq<char>|
            fst_words(f).contains(w) && exists|q: Seq<Cell>|
                #[trigger] path_wf(b, q) && path.is_prefix_of(q) && word_of(q) == w,
    )
}

/// Everything the search owes: the dictionary words spelled by some
/// nonempty legal path on the board.
pub open spec fn found_words(b: Board, f: fst::raw::Fst<Vec<u8>>) -> Set<Seq<char>> {
    Set::new(
        |w: Seq<char>|
            fst_words(f).contains(w) && exists|q: Seq<Cell>|
                #[trigger] path_wf(b, q) && q.len() > 0 && word_of(q) == w,
    )
}

/// A legal path never revisits a position, so it runs out of board after at
/// most sixteen steps.
pub proof fn lemma_path_len(b: Board, p: Seq<Cell>)
    requires
        path_wf(b, p),
    ensures
        p.len() <= 16,
{
    let pos = p.map_values(|c: Cell| c.y as int * 4 + c.x as int);
    assert(pos.no_duplicates()) by {
        assert forall|i: int, j: int|
            0 <= i < pos.len() && 0 <= j < pos.len() && i != j implies pos[i] != pos[j] by {
            assert(b.on_board(p[i]));
            assert(b.on_board(p[j]));
        }
    }
    pos.unique_seq_to_set();
    assert(pos.to_set().subset_of(set_int_range(0, 16))) by {
        assert forall|a: int| pos.to_set().contains(a) implies set_int_range(0, 16).contains(
            a,
        ) by {
            let k = choose|k: int| 0 <= k < pos.len() && pos[k] == a;
            assert(b.on_board(p[k]));
        }
    }
    lemma_int_range(0, 16);
    lemma_len_subset(pos.to_set(), set_int_range(0, 16));
}

/// A path prefix spells a prefix of the word.
proof fn lemma_word_of_prefix(p: Seq<Cell>, q: Seq<Cell>)
    requires
        p.is_prefix_of(q),
    ensures
        word_of(p).is_prefix_of(word_of(q)),
{
    assert(word_of(p) =~= word_of(q).subrange(0, p.len() as int));
}

/// Extending a legal path by an on-board neighbor of its last cell that the
/// path does not yet hold gives a legal path again, one step longer and
/// still within the board's sixteen cells.
proof fn lemma_path_extend(b: Board, path: Seq<Cell>, c: Cell, n: Cell)
    requires
        b.wf(),
        path_wf(b, path),
        path.len() > 0,
        path.last() == c,
        b.on_board(n),
        adjacent(c, n),
        !path.contains(n),
    ensures
        path_wf(b, path.push(n)),
        path.push(n).len() <= 16,
        path.push(n).last() == n,
{
    let np = path.push(n);
    assert(path_wf(b, np)) by {
        assert forall|i: int| 0 <= i < np.len() implies b.on_board(#[trigger] np[i]) by {
            if i < path.len() {
                assert(np[i] == path[i]);
            }
        }
        assert forall|i: int| 0 < i < np.len() implies adjacent(np[i - 1], #[trigger] np[i]) by {
            if i < path.len() {
                assert(np[i] == path[i]);
                assert(np[i - 1] == path[i - 1]);
            } else {
                assert(np[i - 1] == path.last());
            }
        }
        assert forall|i: int, j: int|
            #![trigger np[i], np[j]]
            0 <= i < j < np.len() implies !(np[i].x == np[j].x && np[i].y == np[j].y) by {
            if j < path.len() {
                assert(np[i] == path[i]);
                assert(np[j] == path[j]);
            } else {
                assert(np[j] == n);
                assert(np[i] == path[i]);
                if np[i].x == n.x && np[i].y == n.y {
                    assert(b.on_board(path[i]));
                    assert(path[i] == b.cell_at(n.x as int, n.y as int));
                    assert(path[i] == n);
                    assert(path.contains(n));
                    assert(false);
                }
            }
        }
    }
    lemma_path_len(b, np);
}

/// Relies on char::to_string: the string of one character holds exactly
/// that character.
#[verifier::external_body]
fn char_to_string(c: char) -> (s: String)
    ensures
        s@ == seq![c],
{
    c.to_string()
}

/// The candidate string of the current path, built letter by letter.
fn word_of_path(path: &Vec<Cell>) -> (s: String)
    ensures
        s@ == word_of(path@),
{
    let mut s = String::new();
    let mut i: usize = 0;
    while i < path.len()
        invariant
            i <= path@.len(),
            s@.len() == i,
            forall|j: int| 0 <= j < i ==> s@[j] == path@[j].contents,
        decreases path@.len() - i,
    {
        let cs = char_to_string(path[i].contents);
        s.append(cs.as_str());
        i += 1;
    }
    proof {
        assert(s@ =~= word_of(path@));
    }
    s
}

/// A fresh copy of the path for one branch, so sibling branches never see
/// each other's extensions.
fn clone_path(path: &Vec<Cell>) -> (r: Vec<Cell>)
    ensures
        r@ == path@,
{
    let mut r: Vec<Cell> = Vec::new();
    let mut i: usize = 0;
    while i < path.len()
        invariant
            i <= path@.len(),
            r@ == path@.subrange(0, i as int),
        decreases path@.len() - i,
    {
        r.push(path[i]);
        proof {
            assert(r@ =~= path@.subrange(0, i + 1 as int));
        }
        i += 1;
    }
    proof {
        assert(path@.subrange(0, path@.len() as int) =~= path@);
    }
    r
}

/// The dictionary words spelled by a proper extension of `path` whose first
/// step is one of the cells listed in `allowed`.
spec fn reach_through(
    b: Board,
    f: fst::raw::Fst<Vec<u8>>,
    path: Seq<Cell>,
    allowed: Seq<Cell>,
) -> Set<Seq<char>> {
    Set::new(
        |w: Seq<char>|
            fst_words(f).contains(w) && exists|q: Seq<Cell>|
                #[trigger] path_wf(b, q) && path.is_prefix_of(q) && q.len() > path.len()
                    && allowed.contains(q[path.len() as int]) && word_of(q) == w,
    )
}

/// Admitting one more first step admits exactly the words reachable through
/// the path extended by that step.
proof fn lemma_reach_step(
    b: Board,
    f: fst::raw::Fst<Vec<u8>>,
    path: Seq<Cell>,
    ns: Seq<Cell>,
    k: int,
    n: Cell,
)
    requires
        0 <= k < ns.len(),
        n == ns[k],
    ensures
        reach_through(b, f, path, ns.subrange(0, k + 1)) =~= reach_through(
            b,
            f,
            path,
            ns.subrange(0, k),
        ) + reachable_words(b, f, path.push(n)),
{
    let lhs = reach_through(b, f, path, ns.subrange(0, k + 1));
    let shorter = reach_through(b, f, path, ns.subrange(0, k));
    let via_n = reachable_words(b, f, path.push(n));
    assert forall|w: Seq<char>| lhs.contains(w) implies (shorter + via_n).contains(w) by {
        let q = choose|q: Seq<Cell>|
            #[trigger] path_wf(b, q) && path.is_prefix_of(q) && q.len() > path.len()
                && ns.subrange(0, k + 1).contains(q[path.len() as int]) && word_of(q) == w;
        let step = q[path.len() as int];
        let i = choose|i: int| 0 <= i < k + 1 && (#[trigger] ns.subrange(0, k + 1)[i]) == step;
        if i < k {
            assert(ns.subrange(0, k)[i] == step);
            assert(ns.subrange(0, k).contains(step));
        } else {
            assert(step == n);
            assert(path.push(n).is_prefix_of(q)) by {
                assert(path.push(n) =~= q.subrange(0, path.len() as int + 1));
            }
        }
    }
    assert forall|w: Seq<char>| (shorter + via_n).contains(w) implies lhs.contains(w) by {
        if shorter.contains(w) {
            let q = choose|q: Seq<Cell>|
                #[trigger] path_wf(b, q) && path.is_prefix_of(q) && q.len() > path.len()
                    && ns.subrange(0, k).contains(q[path.len() as int]) && word_of(q) == w;
            let step = q[path.len() as int];
            let i = choose|i: int| 0 <= i < k && (#[trigger] ns.subrange(0, k)[i]) == step;
            assert(ns.subrange(0, k + 1)[i] == step);
            assert(ns.subrange(0, k + 1).contains(step));
        } else {
            let q = choose|q: Seq<Cell>|
                #[trigger] path_wf(b, q) && path.push(n).is_prefix_of(q) && word_of(q) == w;
            assert(path.is_prefix_of(q)) by {
                assert(path =~= q.subrange(0, path.len() as int));
            }
            assert(q[path.len() as int] == n) by {
                assert(q.subrange(0, path.len() as int + 1)[path.len() as int] == path.push(n)[path.len() as int]);
            }
            assert(ns.subrange(0, k + 1)[k] == n);
            assert(ns.subrange(0, k + 1).contains(n));
        }
    }
}

/// What a branch owes splits into its own candidate word, if the dictionary
/// holds it, and the words reachable through each listed neighbor.
proof fn lemma_reach_decompose(
    b: Board,
    f: fst::raw::Fst<Vec<u8>>,
    path: Seq<Cell>,
    c: Cell,
    ns: Seq<Cell>,
)
    requires
        b.wf(),
        path_wf(b, path),
        path.len() > 0,
        path.last() == c,
        ns == b.spec_neighbors(c, path),
    ensures
        reachable_words(b, f, path) =~= (if fst_words(f).contains(word_of(path)) {
            Set::<Seq<char>>::empty().insert(word_of(path))
        } else {
            Set::<Seq<char>>::empty()
        }) + reach_through(b, f, path, ns),
{
    let pw = word_of(path);
    assert forall|w: Seq<char>| reachable_words(b, f, path).contains(w) implies ((if fst_words(
        f,
    ).contains(pw) {
        Set::<Seq<char>>::empty().insert(pw)
    } else {
        Set::<Seq<char>>::empty()
    }) + reach_through(b, f, path, ns)).contains(w) by {
        let q = choose|q: Seq<Cell>|
            #[trigger] path_wf(b, q) && path.is_prefix_of(q) && word_of(q) == w;
        if q.len() == path.len() {
            assert(q =~= path);
            assert(w == pw);
        } else {
            let step = q[path.len() as int];
            assert(b.on_board(step));
            assert(q[path.len() - 1] == path.last());
            assert(adjacent(c, step));
            assert(!path.contains(step)) by {
                if path.contains(step) {
                    let i = choose|i: int| 0 <= i < path.len() && path[i] == step;
                    assert(q[i] == step);
                    assert(!(q[i].x == q[path.len() as int].x && q[i].y
                        == q[path.len() as int].y));
                    assert(false);
                }
            }
            lemma_neighbors_membership(b, c, path, step);
            assert(ns.contains(step));
        }
    }
    assert forall|w: Seq<char>| ((if fst_words(f).contains(pw) {
        Set::<Seq<char>>::empty().insert(pw)
    } else {
        Set::<Seq<char>>::empty()
    }) + reach_through(b, f, path, ns)).contains(w) implies reachable_words(b, f, path).contains(
        w,
    ) by {
        if w == pw && fst_words(f).contains(pw) {
            assert(path.is_prefix_of(path)) by {
                assert(path =~= path.subrange(0, path.len() as int));
            }
            assert(path_wf(b, path) && path.is_prefix_of(path) && word_of(path) == w);
        }
    }
}

/// One branch of the backtracking exploration: looks the current candidate
/// string up, records it when the dictionary holds it, abandons the branch
/// when no dictionary word continues it, and otherwise recurses into each
/// unvisited neighbor. Afterwards `found` holds exactly what it held before
/// plus every dictionary word spelled by an extension of the current path.
pub fn traverse(
    dict: &fst::raw::Fst<Vec<u8>>,
    board: &Board,
    current_cell: &Cell,
    current_path: Vec<Cell>,
    found: &mut WordSet,
)
    requires
        board.wf(),
        path_wf(*board, current_path@),
        current_path@.len() > 0,
        current_path@.last() == *current_cell,
        old(found).wf(),
    ensures
        final(found).wf(),
        final(found).contents() == old(found).contents() + reachable_words(
            *board,
            *dict,
            current_path@,
        ),
    decreases 16 - current_path@.len(),
{
    proof {
        lemma_path_len(*board, current_path@);
    }
    let ghost path0 = current_path@;
    let ghost base = old(found).contents();
    let ghost pw = word_of(path0);
    let possible_word = word_of_path(&current_path);
    match prefix_search(dict, possible_word.as_str()) {
        SearchResult::NoMatch => {
            proof {
                assert forall|w: Seq<char>| !reachable_words(*board, *dict, path0).contains(
                    w,
                ) by {
                    if reachable_words(*board, *dict, path0).contains(w) {
                        let q = choose|q: Seq<Cell>|
                            #[trigger] path_wf(*board, q) && path0.is_prefix_of(q) && word_of(q)
                                == w;
                        lemma_word_of_prefix(path0, q);
                        assert(false);
                    }
                }
                assert(found.contents() =~= base + reachable_words(*board, *dict, path0));
            }
            return;
        },
        SearchResult::Prefix => {},
        SearchResult::Word => {
            found.insert(possible_word);
        },
    }
    let ghost c0 = found.contents();
    proof {
        assert(c0 == if fst_words(*dict).contains(pw) {
            base.insert(pw)
        } else {
            base
        });
    }
    let neighbors = board.neighbors(current_cell, &current_path);
    let ghost ns = neighbors@;
    let mut k: usize = 0;
    proof {
        assert(ns.subrange(0, 0) =~= Seq::<Cell>::empty());
        assert(found.contents() =~= c0 + reach_through(*board, *dict, path0, ns.subrange(0, 0)));
    }
    while k < neighbors.len()
        invariant
            board.wf(),
            path_wf(*board, path0),
            path0.len() > 0,
            path0 == current_path@,
            path0.last() == *current_cell,
            neighbors@ == ns,
            ns == board.spec_neighbors(*current_cell, path0),
            k <= ns.len(),
            found.wf(),
            found.contents() == c0 + reach_through(*board, *dict, path0, ns.subrange(0, k as int)),
        decreases ns.len() - k,
    {
        let n = neighbors[k];
        let mut new_path = clone_path(&current_path);
        new_path.push(n);
        proof {
            assert(ns[k as int] == n);
            assert(ns.contains(n));
            lemma_neighbors_membership(*board, *current_cell, path0, n);
            assert(new_path@ =~= path0.push(n));
            lemma_path_extend(*board, path0, *current_cell, n);
        }
        traverse(dict, board, &n, new_path, found);
        proof {
            lemma_reach_step(*board, *dict, path0, ns, k as int, n);
            assert(found.contents() =~= c0 + reach_through(
                *board,
                *dict,
                path0,
                ns.subrange(0, k as int + 1),
            ));
        }
        k += 1;
    }
    proof {
        assert(ns.subrange(0, ns.len() as int) =~= ns);
        lemma_reach_decompose(*board, *dict, path0, *current_cell, ns);
        assert(found.contents() =~= base + reachable_words(*board, *dict, path0));
    }
}

/// Every candidate string the cache holds is a dead prefix, so a cache hit
/// may abandon a branch without a dictionary query and without losing a
/// word.
pub open spec fn cache_wf(f: fst::raw::Fst<Vec<u8>>, cache: Seq<String>) -> bool {
    forall|i: int| 0 <= i < cache.len() ==> dead_prefix(f, #[trigger] cache[i]@)
}

/// Whether the cache already holds this candidate string.
fn cache_holds(cache: &Vec<String>, w: &String) -> (r: bool)
    ensures
        r == exists|i: int| 0 <= i < cache@.len() && #[trigger] cache@[i]@ == w@,
{
    let mut i: usize = 0;
    while i < cache.len()
        invariant
            i <= cache@.len(),
            forall|j: int| 0 <= j < i ==> #[trigger] cache@[j]@ != w@,
        decreases cache@.len() - i,
    {
        if cache[i] == *w {
            return true;
        }
        i += 1;
    }
    false
}

/// One branch of the exploration with the dead-prefix cache enabled: a
/// candidate string the cache holds is abandoned at once, a candidate the
/// dictionary answers `NoMatch` for is cached, and everything else runs as
/// in `traverse`. `found` ends exactly as `traverse` leaves it.
pub fn traverse_cached(
    dict: &fst::raw::Fst<Vec<u8>>,
    board: &Board,
    current_cell: &Cell,
    current_path: Vec<Cell>,
    found: &mut WordSet,
    cache: &mut Vec<String>,
)
    requires
        board.wf(),
        path_wf(*board, current_path@),
        current_path@.len() > 0,
        current_path@.last() == *current_cell,
        old(found).wf(),
        cache_wf(*dict, old(cache)@),
    ensures
        final(found).wf(),
        cache_wf(*dict, final(cache)@),
        final(found).contents() == old(found).contents() + reachable_words(
            *board,
            *dict,
            current_path@,
        ),
    decreases 16 - current_path@.len(),
{
    proof {
        lemma_path_len(*board, current_path@);
    }
    let ghost path0 = current_path@;
    let ghost base = old(found).contents();
    let ghost pw = word_of(path0);
    let possible_word = word_of_path(&current_path);
    if cache_holds(cache, &possible_word) {
        proof {
            assert(dead_prefix(*dict, pw)) by {
                let i = choose|i: int| 0 <= i < cache@.len() && #[trigger] cache@[i]@ == pw;
            }
            assert forall|w: Seq<char>| !reachable_words(*board, *dict, path0).contains(w) by {
                if reachable_words(*board, *dict, path0).contains(w) {
                    let q = choose|q: Seq<Cell>|
                        #[trigger] path_wf(*board, q) && path0.is_prefix_of(q) && word_of(q) == w;
                    lemma_word_of_prefix(path0, q);
                    assert(false);
                }
            }
            assert(found.contents() =~= base + reachable_words(*board, *dict, path0));
        }
        return;
    }
    match prefix_search(dict, possible_word.as_str()) {
        SearchResult::NoMatch => {
            proof {
                assert forall|w: Seq<char>| !reachable_words(*board, *dict, path0).contains(
                    w,
                ) by {
                    if reachable_words(*board, *dict, path0).contains(w) {
                        let q = choose|q: Seq<Cell>|
                            #[trigger] path_wf(*board, q) && path0.is_prefix_of(q) && word_of(q)
                                == w;
                        lemma_word_of_prefix(path0, q);
                        assert(false);
                    }
                }
                assert(found.contents() =~= base + reachable_words(*board, *dict, path0));
            }
            cache.push(possible_word);
            proof {
                assert forall|i: int| 0 <= i < cache@.len() implies dead_prefix(
                    *dict,
                    #[trigger] cache@[i]@,
                ) by {
                    if i < cache@.len() - 1 {
                        assert(cache@[i] == old(cache)@[i]);
                    } else {
                        assert(cache@[i]@ == pw);
                    }
                }
            }
            return;
        },
        SearchResult::Prefix => {},
        SearchResult::Word => {
            found.insert(possible_word);
        },
    }
    let ghost c0 = found.contents();
    proof {
        assert(c0 == if fst_words(*dict).contains(pw) {
            base.insert(pw)
        } else {
            base
        });
    }
    let neighbors = board.neighbors(current_cell, &current_path);
    let ghost ns = neighbors@;
    let mut k: usize = 0;
    proof {
        assert(ns.subrange(0, 0) =~= Seq::<Cell>::empty());
        assert(found.contents() =~= c0 + reach_through(*board, *dict, path0, ns.subrange(0, 0)));
    }
    while k < neighbors.len()
        invariant
            board.wf(),
            path_wf(*board, path0),
            path0.len() > 0,
            path0 == current_path@,
            path0.last() == *current_cell,
            neighbors@ == ns,
            ns == board.spec_neighbors(*current_cell, path0),
            k <= ns.len(),
            found.wf(),
            cache_wf(*dict, cache@),
            found.contents() == c0 + reach_through(*board, *dict, path0, ns.subrange(0, k as int)),
        decreases ns.len() - k,
    {
        let n = neighbors[k];
        let mut new_path = clone_path(&current_path);
        new_path.push(n);
        proof {
            assert(ns[k as int] == n);
            assert(ns.contains(n));
            lemma_neighbors_membership(*board, *current_cell, path0, n);
            assert(new_path@ =~= path0.push(n));
            lemma_path_extend(*board, path0, *current_cell, n);
        }
        traverse_cached(dict, board, &n, new_path, found, cache);
        proof {
            lemma_reach_step(*board, *dict, path0, ns, k as int, n);
            assert(found.contents() =~= c0 + reach_through(
                *board,
                *dict,
                path0,
                ns.subrange(0, k as int + 1),
            ));
        }
        k += 1;
    }
    proof {
        assert(ns.subrange(0, ns.len() as int) =~= ns);
        lemma_reach_decompose(*board, *dict, path0, *current_cell, ns);
        assert(found.contents() =~= base + reachable_words(*board, *dict, path0));
    }
}

/// Explores the whole board with the dead-prefix cache enabled. The output
/// listing is stated exactly as `search` states its own, so the cache
/// cannot change what is found.
pub fn search_cached(dict: &fst::raw::Fst<Vec<u8>>, board: &Board) -> (r: Vec<String>)
    requires
        board.wf(),
    ensures
        sorted_listing(r@.map_values(|s: String| s@), found_words(*board, *dict)),
{
    let mut found = WordSet::new();
    let mut cache: Vec<String> = Vec::new();
    proof {
        assert(found.contents() =~= seeds_before(*board, *dict, 0));
    }
    let mut k: usize = 0;
    while k < 16
        invariant
            board.wf(),
            found.wf(),
            cache_wf(*dict, cache@),
            k <= 16,
            found.contents() == seeds_before(*board, *dict, k as int),
        decreases 16 - k,
    {
        let cell = board.slots[k / 4][k % 4];
        let seed = vec![cell];
        proof {
            assert(cell == board.cell_at(k as int % 4, k as int / 4));
            assert(board.on_board(cell));
            assert(seed@ =~= seq![cell]);
            assert(path_wf(*board, seed@));
            assert(seed@.last() == cell);
        }
        traverse_cached(dict, board, &cell, seed, &mut found, &mut cache);
        proof {
            lemma_seeds_step(*board, *dict, k as int);
            assert(found.contents() =~= seeds_before(*board, *dict, k as int + 1));
        }
        k += 1;
    }
    proof {
        assert(seeds_before(*board, *dict, 16) =~= found_words(*board, *dict)) by {
            assert forall|w: Seq<char>| found_words(*board, *dict).contains(w) implies seeds_before(
                *board,
                *dict,
                16,
            ).contains(w) by {
                let q = choose|q: Seq<Cell>|
                    #[trigger] path_wf(*board, q) && q.len() > 0 && word_of(q) == w;
                assert(board.on_board(q[0]));
            }
        }
    }
    found.into_words()
}

/// No-reuse: every word the search owes is spelled by some legal path, and
/// a legal path never visits the same position twice.
pub proof fn lemma_no_reuse(b: Board, f: fst::raw::Fst<Vec<u8>>, w: Seq<char>)
    requires
        found_words(b, f).contains(w),
    ensures
        exists|q: Seq<Cell>| #[trigger] path_wf(b, q) && q.len() > 0 && word_of(q) == w,
        forall|q: Seq<Cell>|
            path_wf(b, q) ==> forall|i: int, j: int|
                #![trigger q[i], q[j]]
                0 <= i < j < q.len() ==> !(q[i].x == q[j].x && q[i].y == q[j].y),
{
}

/// Word validity: everything the search owes is a word the dictionary
/// holds, so an independent query for it answers `Word`.
pub proof fn lemma_found_word_valid(b: Board, f: fst::raw::Fst<Vec<u8>>, w: Seq<char>)
    requires
        found_words(b, f).contains(w),
    ensures
        fst_words(f).contains(w),
{
}

/// The words found from starting cells whose row-major index lies below
/// `limit`.
spec fn seeds_before(b: Board, f: fst::raw::Fst<Vec<u8>>, limit: int) -> Set<Seq<char>> {
    Set::new(
        |w: Seq<char>|
            fst_words(f).contains(w) && exists|q: Seq<Cell>|
                #[trigger] path_wf(b, q) && q.len() > 0 && word_of(q) == w && q[0].y * 4 + q[0].x
                    < limit,
    )
}

/// Seeding one more starting cell adds exactly the words reachable from it.
proof fn lemma_seeds_step(b: Board, f: fst::raw::Fst<Vec<u8>>, k: int)
    requires
        b.wf(),
        0 <= k < 16,
    ensures
        seeds_before(b, f, k + 1) =~= seeds_before(b, f, k) + reachable_words(
            b,
            f,
            seq![b.cell_at(k % 4, k / 4)],
        ),
{
    let c = b.cell_at(k % 4, k / 4);
    assert(0 <= k % 4 < 4 && 0 <= k / 4 < 4) by {
        vstd::arithmetic::div_mod::lemma_fundamental_div_mod(k, 4);
    }
    assert(c.x == k % 4 && c.y == k / 4);
    assert forall|w: Seq<char>| seeds_before(b, f, k + 1).contains(w) implies (seeds_before(
        b,
        f,
        k,
    ) + reachable_words(b, f, seq![c])).contains(w) by {
        let q = choose|q: Seq<Cell>|
            #[trigger] path_wf(b, q) && q.len() > 0 && word_of(q) == w && q[0].y * 4 + q[0].x < k
                + 1;
        if q[0].y * 4 + q[0].x == k {
            assert(b.on_board(q[0]));
            vstd::arithmetic::div_mod::lemma_fundamental_div_mod_converse(
                k,
                4,
                q[0].y as int,
                q[0].x as int,
            );
            assert(q[0] == c);
            assert(seq![c].is_prefix_of(q)) by {
                assert(seq![c] =~= q.subrange(0, 1));
            }
        }
    }
    assert forall|w: Seq<char>| (seeds_before(b, f, k) + reachable_words(b, f, seq![c])).contains(
        w,
    ) implies seeds_before(b, f, k + 1).contains(w) by {
        if reachable_words(b, f, seq![c]).contains(w) {
            let q = choose|q: Seq<Cell>|
                #[trigger] path_wf(b, q) && seq![c].is_prefix_of(q) && word_of(q) == w;
            assert(q[0] == q.subrange(0, 1)[0]);
            assert(q[0] == c);
            vstd::arithmetic::div_mod::lemma_fundamental_div_mod(k, 4);
            assert(q[0].y * 4 + q[0].x == k);
        }
    }
}

/// Explores the whole board: every cell seeds one independent exploration,
/// and the union of everything found is handed back as a sorted,
/// deduplicated listing of exactly the dictionary words some legal path
/// spells.
pub fn search(dict: &fst::raw::Fst<Vec<u8>>, board: &Board) -> (r: Vec<String>)
    requires
        board.wf(),
    ensures
        sorted_listing(r@.map_values(|s: String| s@), found_words(*board, *dict)),
{
    let mut found = WordSet::new();
    proof {
        assert(found.contents() =~= seeds_before(*board, *dict, 0));
    }
    let mut k: usize = 0;
    while k < 16
        invariant
            board.wf(),
            found.wf(),
            k <= 16,
            found.contents() == seeds_before(*board, *dict, k as int),
        decreases 16 - k,
    {
        let cell = board.slots[k / 4][k % 4];
        let seed = vec![cell];
        proof {
            assert(cell == board.cell_at(k as int % 4, k as int / 4));
            assert(board.on_board(cell));
            assert(seed@ =~= seq![cell]);
            assert(path_wf(*board, seed@));
            assert(seed@.last() == cell);
        }
        traverse(dict, board, &cell, seed, &mut found);
        proof {
            lemma_seeds_step(*board, *dict, k as int);
            assert(found.contents() =~= seeds_before(*board, *dict, k as int + 1));
        }
        k += 1;
    }
    proof {
        assert(seeds_before(*board, *dict, 16) =~= found_words(*board, *dict)) by {
            assert forall|w: Seq<char>| found_words(*board, *dict).contains(w) implies seeds_before(
                *board,
                *dict,
                16,
            ).contains(w) by {
                let q = choose|q: Seq<Cell>|
                    #[trigger] path_wf(*board, q) && q.len() > 0 && word_of(q) == w;
                assert(board.on_board(q[0]));
            }
        }
    }
    found.into_words()
}

/// The deduplicating result set: the words found so far, kept as a strictly
/// sorted listing so the final answer is in order and duplicate-free.
pub struct WordSet {
    words: Vec<String>,
}

impl WordSet {
    /// The words held, as character sequences.
    pub closed spec fn contents(self) -> Set<Seq<char>> {
        Set::new(
            |w: Seq<char>| exists|i: int| 0 <= i < self.words@.len() && #[trigger] self.words@[i]@ == w,
        )
    }

    /// The listing stays strictly sorted, so it never holds a word twice.
    pub closed spec fn wf(self) -> bool {
        forall|i: int, j: int|
            #![trigger self.words@[i], self.words@[j]]
            0 <= i < j < self.words@.len() ==> lex_lt(self.words@[i]@, self.words@[j]@)
    }

    /// The listing, for stating what `into_words` hands out.
    pub closed spec fn listing(self) -> Seq<Seq<char>> {
        self.words@.map_values(|s: String| s@)
    }

    pub fn new() -> (r: WordSet)
        ensures
            r.wf(),
            r.contents() == Set::<Seq<char>>::empty(),
    {
        let r = WordSet { words: Vec::new() };
        proof {
            assert(r.contents() =~= Set::<Seq<char>>::empty());
        }
        r
    }

    /// Where `w` belongs in the sorted listing: the first slot whose word is
    /// not below `w`.
    fn position_for(&self, w: &String) -> (i: usize)
        requires
            self.wf(),
        ensures
            i <= self.words@.len(),
            forall|j: int| 0 <= j < i ==> lex_lt(#[trigger] self.words@[j]@, w@),
            i < self.words@.len() ==> lex_le(w@, self.words@[i as int]@),
    {
        let mut i: usize = 0;
        while i < self.words.len()
            invariant
                i <= self.words@.len(),
                forall|j: int| 0 <= j < i ==> lex_lt(#[trigger] self.words@[j]@, w@),
        decreases self.words@.len() - i,
        {
            if str_le(w.as_str(), self.words[i].as_str()) {
                return i;
            }
            proof {
                lemma_lex_total(w@, self.words@[i as int]@);
            }
            i += 1;
        }
        i
    }

    /// Records a word if it is new; the set afterwards holds exactly the old
    /// words and `w`.
    pub fn insert(&mut self, w: String)
        requires
            old(self).wf(),
        ensures
            final(self).wf(),
            final(self).contents() == old(self).contents().insert(w@),
    {
        let ghost olds = self.words@;
        let i = self.position_for(&w);
        if i < self.words.len() && self.words[i] == w {
            proof {
                assert(self.words@[i as int]@ == w@);
                assert(self.contents().contains(w@));
                assert(self.contents() =~= old(self).contents().insert(w@));
            }
        } else {
            proof {
                olds.insert_ensures(i as int, w);
            }
            self.words.insert(i, w);
            proof {
                let news = self.words@;
                assert forall|a: int, b: int|
                    #![trigger news[a], news[b]]
                    0 <= a < b < news.len() implies lex_lt(news[a]@, news[b]@) by {
                    let ii = i as int;
                    if b < ii {
                        assert(news[a] == olds[a]);
                        assert(news[b] == olds[b]);
                    } else if b == ii {
                        assert(news[a] == olds[a]);
                        assert(news[b]@ == w@);
                    } else if a < ii {
                        assert(news[a] == olds[a]);
                        assert(news[b] == olds[b - 1]);
                        if a < b - 1 {
                            assert(lex_lt(olds[a]@, olds[b - 1]@));
                        }
                    } else if a == ii {
                        assert(news[a]@ == w@);
                        assert(news[b] == olds[b - 1]);
                        assert(ii < olds.len());
                        assert(lex_le(w@, olds[ii]@));
                        assert(w@ != olds[ii]@);
                        assert(lex_lt(w@, olds[ii]@));
                        if b - 1 > ii {
                            lemma_lex_lt_le_trans(w@, olds[ii]@, olds[b - 1]@);
                        }
                    } else {
                        assert(news[a] == olds[a - 1]);
                        assert(news[b] == olds[b - 1]);
                    }
                }
                assert forall|v: Seq<char>| self.contents().contains(v) implies old(
                    self,
                ).contents().insert(w@).contains(v) by {
                    let k = choose|k: int| 0 <= k < news.len() && news[k]@ == v;
                    if k < i as int {
                        assert(olds[k]@ == v);
                    } else if k > i as int {
                        assert(olds[k - 1]@ == v);
                    }
                }
                assert forall|v: Seq<char>| old(self).contents().insert(w@).contains(
                    v,
                ) implies self.contents().contains(v) by {
                    if v == w@ {
                        assert(news[i as int]@ == v);
                    } else {
                        let k = choose|k: int| 0 <= k < olds.len() && olds[k]@ == v;
                        if k < i as int {
                            assert(news[k]@ == v);
                        } else {
                            assert(news[k + 1]@ == v);
                        }
                    }
                }
                assert(self.contents() =~= old(self).contents().insert(w@));
            }
        }
    }

    /// Hands the finished listing out: strictly sorted, holding exactly the
    /// recorded words.
    pub fn into_words(self) -> (r: Vec<String>)
        requires
            self.wf(),
        ensures
            r@.map_values(|s: String| s@) == self.listing(),
            sorted_listing(r@.map_values(|s: String| s@), self.contents()),
    {
        proof {
            let m = self.words@.map_values(|s: String| s@);
            assert forall|w: Seq<char>| #[trigger] m.contains(w) implies self.contents().contains(
                w,
            ) by {
                let k = choose|k: int| 0 <= k < m.len() && m[k] == w;
                assert(self.words@[k]@ == w);
            }
            assert forall|w: Seq<char>| self.contents().contains(w) implies #[trigger] m.contains(
                w,
            ) by {
                let k = choose|k: int| 0 <= k < self.words@.len() && self.words@[k]@ == w;
                assert(m[k] == w);
            }
        }
        self.words
    }
}

} // verus!
