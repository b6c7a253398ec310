//! The dictionary collaborator: a prefix query over the word set held by an
//! `fst` set automaton.
//!
//! The automaton itself is outside code, and it stores byte strings, not
//! character strings. Its meaning here is modeled by four uninterpreted
//! names: `fst_words`, the words it holds (the keys that decode as UTF-8,
//! read as character sequences); `node_words`, the continuations accepted
//! from one node; `node_addr_ok`, which marks the addresses that actually
//! name a node of the automaton — the root, and whatever a transition hands
//! out; and `keys_decodable`, which says every key of the automaton decodes
//! as UTF-8, so that the byte-level automaton and its character-level
//! reading agree. The trusted wrappers below state only what the `fst`
//! crate's node traversal plainly does over those names, and only for marked
//! addresses, since the crate aborts on an address that names no node;
//! `prefix_search` is then proved against them.

use fst::IntoStreamer;
use fst::Streamer;
use vstd::prelude::*;
use vstd::string::StrSliceExecFns;

verus! {

#[verifier::external_type_specification]
#[verifier::external_body]
#[verifier::reject_recursive_types(D)]
pub struct ExFst<D>(fst::raw::Fst<D>);

/// The set of words the automaton holds: those of its keys that are the
/// UTF-8 encoding of a character sequence, read as that sequence.
pub uninterp spec fn fst_words(f: fst::raw::Fst<Vec<u8>>) -> Set<Seq<char>>;

/// The continuations accepted from the node at address `addr`: exactly
/// those character sequences whose UTF-8 encoding leads from this node to a
/// final node.
pub uninterp spec fn node_words(f: fst::raw::Fst<Vec<u8>>, addr: usize) -> Set<Seq<char>>;

/// `addr` names a node of this automaton: it is the root's address or one
/// that a transition of a named node hands out. Only such addresses may be
/// passed back into the automaton.
pub uninterp spec fn node_addr_ok(f: fst::raw::Fst<Vec<u8>>, addr: usize) -> bool;

/// Every key of the automaton is the UTF-8 encoding of a character
/// sequence. The `fst` crate stores arbitrary byte strings; only under this
/// assumption does every surviving walk witness a word of `fst_words`, so
/// only under it is a `Prefix` answer known to name a live candidate.
pub uninterp spec fn keys_decodable(f: fst::raw::Fst<Vec<u8>>) -> bool;

/// `s` is a dead prefix: no dictionary word starts with it.
pub open spec fn dead_prefix(f: fst::raw::Fst<Vec<u8>>, s: Seq<char>) -> bool {
    forall|w: Seq<char>| #[trigger] fst_words(f).contains(w) ==> !s.is_prefix_of(w)
}

/// Relies on fst::raw::Fst::root and fst::raw::Node::addr: the address of
/// the automaton's root node, validated when the automaton was built, from
/// which exactly the set's keys are accepted.
#[verifier::external_body]
fn fst_root(f: &fst::raw::Fst<Vec<u8>>) -> (r: usize)
    ensures
        node_addr_ok(*f, r),
        node_words(*f, r) == fst_words(*f),
{
    f.root().addr()
}

/// Relies on fst::raw::Node::find_input and fst::raw::Node::transition_addr:
/// following the transitions for one character's bytes from a node of the
/// automaton. When they lead on, the address reached names a node again,
/// one accepting exactly the tails of this character's continuations. When
/// they do not lead on, no continuation of the starting node begins with the
/// character. The builder compiles a node only on the path of some inserted
/// key, so when every key decodes as UTF-8, the node reached accepts at
/// least one continuation; of a byte key that decodes as no character
/// sequence, nothing is claimed.
#[verifier::external_body]
fn fst_step(f: &fst::raw::Fst<Vec<u8>>, addr: usize, c: char) -> (r: Option<usize>)
    requires
        node_addr_ok(*f, addr),
    ensures
        r matches Some(next) ==> node_addr_ok(*f, next),
        r matches Some(next) ==> forall|s: Seq<char>|
            #[trigger] node_words(*f, next).contains(s) <==> node_words(*f, addr).contains(
                seq![c] + s,
            ),
        r matches Some(next) ==> keys_decodable(*f) ==> exists|s: Seq<char>|
            #[trigger] node_words(*f, next).contains(s),
        r is None ==> forall|s: Seq<char>| !node_words(*f, addr).contains(#[trigger] (seq![c] + s)),
{
    let mut buf = [0u8; 4];
    let mut a = addr;
    for b in c.encode_utf8(&mut buf).bytes() {
        let node = f.node(a);
        match node.find_input(b) {
            None => return None,
            Some(i) => a = node.transition_addr(i),
        }
    }
    Some(a)
}

/// Relies on fst::raw::Node::is_final: a node of the automaton is final
/// exactly when the empty continuation is accepted from it.
#[verifier::external_body]
fn fst_is_final(f: &fst::raw::Fst<Vec<u8>>, addr: usize) -> (r: bool)
    requires
        node_addr_ok(*f, addr),
    ensures
        r == node_words(*f, addr).contains(Seq::<char>::empty()),
{
    f.node(addr).is_final()
}

/// Relies on the stream of fst::raw::Fst (fst::Streamer::next), which
/// yields every key of the automaton, and on std's str::from_utf8: answers
/// true only when every key decodes as UTF-8.
#[verifier::external_body]
fn keys_decode(f: &fst::raw::Fst<Vec<u8>>) -> (r: bool)
    ensures
        r ==> keys_decodable(*f),
{
    let mut stream = f.into_stream();
    while let Some((key, _)) = stream.next() {
        if std::str::from_utf8(key).is_err() {
            return false;
        }
    }
    true
}

/// Accepts a dictionary automaton only when every key it holds decodes as a
/// string, so that the three-way answers of `prefix_search` are known to
/// classify every candidate exactly. An automaton built from a word list
/// always passes; one with raw byte keys is handed back as `None`.
pub fn validate_dictionary(f: fst::raw::Fst<Vec<u8>>) -> (r: Option<fst::raw::Fst<Vec<u8>>>)
    ensures
        r matches Some(g) ==> g == f && keys_decodable(g),
{
    if keys_decode(&f) {
        Some(f)
    } else {
        None
    }
}

/// The three answers a dictionary query can give about a candidate string.
#[derive(PartialEq, Eq, Structural, Debug)]
pub enum SearchResult {
    NoMatch,
    Prefix,
    Word,
}

/// Walks the automaton along `key`. Answers `Word` exactly when `key` is
/// one of the dictionary's words, and `NoMatch` only when `key` is
/// non-empty and no dictionary word has it as a prefix, so the branch
/// spelling it is dead. When every key of the automaton decodes as a string
/// (see `validate_dictionary`), the classification is exact both ways:
/// `NoMatch` on every non-empty dead candidate, and `Prefix` exactly on a
/// live candidate that is not itself a word.
pub fn prefix_search(fst: &fst::raw::Fst<Vec<u8>>, key: &str) -> (r: SearchResult)
    ensures
        r == SearchResult::Word <==> fst_words(*fst).contains(key@),
        r == SearchResult::NoMatch ==> key@.len() > 0 && dead_prefix(*fst, key@),
        r == SearchResult::Prefix ==> !fst_words(*fst).contains(key@),
        keys_decodable(*fst) ==> (r == SearchResult::NoMatch <==> key@.len() > 0 && dead_prefix(
            *fst,
            key@,
        )),
        keys_decodable(*fst) ==> (r == SearchResult::Prefix <==> !fst_words(*fst).contains(key@)
            && (key@.len() == 0 || !dead_prefix(*fst, key@))),
{
    let ghost ks = key@;
    let n = key.unicode_len();
    let mut addr = fst_root(fst);
    let mut i: usize = 0;
    while i < n
        invariant
            n == ks.len(),
            key@ == ks,
            i <= n,
            node_addr_ok(*fst, addr),
            keys_decodable(*fst) && i > 0 ==> exists|s: Seq<char>|
                #[trigger] node_words(*fst, addr).contains(s),
            forall|s: Seq<char>|
                #[trigger] node_words(*fst, addr).contains(s) <==> fst_words(*fst).contains(
                    ks.subrange(0, i as int) + s,
                ),
        decreases n - i,
    {
        let c = key.get_char(i);
        match fst_step(fst, addr, c) {
            None => {
                proof {
                    assert forall|w: Seq<char>| #[trigger]
                        fst_words(*fst).contains(w) implies !ks.is_prefix_of(w) by {
                        if ks.is_prefix_of(w) {
                            let tail = w.subrange(i as int + 1, w.len() as int);
                            assert(w =~= ks.subrange(0, i as int) + (seq![c] + tail));
                            assert(node_words(*fst, addr).contains(seq![c] + tail));
                            assert(false);
                        }
                    }
                    assert(ks.is_prefix_of(ks));
                }
                return SearchResult::NoMatch;
            },
            Some(a2) => {
                proof {
                    assert forall|s: Seq<char>|
                        #[trigger] node_words(*fst, a2).contains(s) == fst_words(*fst).contains(
                            ks.subrange(0, i as int + 1) + s,
                        ) by {
                        assert(ks.subrange(0, i as int + 1) =~= ks.subrange(0, i as int)
                            + seq![c]);
                        assert((ks.subrange(0, i as int) + seq![c]) + s =~= ks.subrange(
                            0,
                            i as int,
                        ) + (seq![c] + s));
                        assert(node_words(*fst, addr).contains(seq![c] + s) == fst_words(
                            *fst,
                        ).contains(ks.subrange(0, i as int) + (seq![c] + s)));
                    }
                }
                addr = a2;
            },
        }
        i += 1;
    }
    proof {
        assert(ks.subrange(0, n as int) =~= ks);
        assert(ks + Seq::<char>::empty() =~= ks);
        if keys_decodable(*fst) && ks.len() > 0 {
            let s = choose|s: Seq<char>| node_words(*fst, addr).contains(s);
            assert(fst_words(*fst).contains(ks + s));
            assert(ks.is_prefix_of(ks + s)) by {
                assert(ks =~= (ks + s).subrange(0, ks.len() as int));
            }
            assert(!dead_prefix(*fst, ks));
        }
    }
    if fst_is_final(fst, addr) {
        SearchResult::Word
    } else {
        SearchResult::Prefix
    }
}

/// A dead prefix stays dead under extension: once no dictionary word starts
/// with a candidate, no dictionary word starts with any longer candidate
/// built on it either — so a query for the longer candidate may also be
/// answered `NoMatch`, and a cached dead prefix may be trusted forever.
pub proof fn lemma_dead_prefix_extends(f: fst::raw::Fst<Vec<u8>>, s: Seq<char>, t: Seq<char>)
    requires
        dead_prefix(f, s),
    ensures
        dead_prefix(f, s + t),
{
    assert forall|w: Seq<char>| #[trigger] fst_words(f).contains(w) implies !(s
        + t).is_prefix_of(w) by {
        if (s + t).is_prefix_of(w) {
            assert(s.is_prefix_of(w)) by {
                assert(s =~= w.subrange(0, s.len() as int));
            }
        }
    }
}

} // verus!
