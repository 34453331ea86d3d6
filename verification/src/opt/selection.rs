//! The names of the passes, and the pass list of the command line: pass
//! names separated by commas.

use vstd::prelude::*;
use vstd::string::*;
use crate::opt::{Pass, PassSet};

verus! {

/// The name of a pass.
pub open spec fn name_text(pass: Pass) -> Seq<char> {
    match pass {
        Pass::OffsetCoalescing => "offset-coalescing"@,
        Pass::DeltaFolding => "delta-folding"@,
        Pass::ClearLoop => "clear-loop"@,
        Pass::CopyLoop => "copy-loop"@,
        Pass::DeadStore => "dead-store-elimination"@,
    }
}

/// The pass that `name` names: the first in the order of the passes whose
/// name it is, or `None` where it is no pass's name.
pub open spec fn named(name: Seq<char>) -> Option<Pass> {
    if name == name_text(Pass::OffsetCoalescing) {
        Some(Pass::OffsetCoalescing)
    } else if name == name_text(Pass::DeltaFolding) {
        Some(Pass::DeltaFolding)
    } else if name == name_text(Pass::ClearLoop) {
        Some(Pass::ClearLoop)
    } else if name == name_text(Pass::CopyLoop) {
        Some(Pass::CopyLoop)
    } else if name == name_text(Pass::DeadStore) {
        Some(Pass::DeadStore)
    } else {
        None
    }
}

/// The pieces of `s` between its commas; a text without a comma is one
/// piece.
pub open spec fn pieces(s: Seq<char>) -> Seq<Seq<char>>
    decreases s.len(),
{
    if s.len() == 0 {
        seq![Seq::empty()]
    } else {
        let before = pieces(s.drop_last());
        if s.last() == ',' {
            before.push(Seq::empty())
        } else {
            before.drop_last().push(before.last().push(s.last()))
        }
    }
}

/// The set with `pass` added.
pub open spec fn plus(set: PassSet, pass: Pass) -> PassSet {
    match pass {
        Pass::OffsetCoalescing => PassSet { offset_coalescing: true, ..set },
        Pass::DeltaFolding => PassSet { delta_folding: true, ..set },
        Pass::ClearLoop => PassSet { clear_loop: true, ..set },
        Pass::CopyLoop => PassSet { copy_loop: true, ..set },
        Pass::DeadStore => PassSet { dead_store: true, ..set },
    }
}

/// The set of no pass.
pub open spec fn no_pass() -> PassSet {
    PassSet { offset_coalescing: false, delta_folding: false, clear_loop: false, copy_loop: false, dead_store: false }
}

/// The passes that the names select, or `None` where one of the names is
/// no pass's name.
pub open spec fn selected(names: Seq<Seq<char>>) -> Option<PassSet>
    decreases names.len(),
{
    if names.len() == 0 {
        Some(no_pass())
    } else {
        match (selected(names.drop_last()), named(names.last())) {
            (Some(set), Some(pass)) => Some(plus(set, pass)),
            _ => None,
        }
    }
}

/// Tells whether two texts are the same.
pub fn same_text(a: &str, b: &str) -> (r: bool)
    ensures
        r == (a@ == b@),
{
    let x = a.as_bytes();
    let y = b.as_bytes();
    proof {
        vstd::utf8::encode_utf8_decode_utf8(a@);
        vstd::utf8::encode_utf8_decode_utf8(b@);
    }
    if x.len() != y.len() {
        return false;
    }
    let mut i: usize = 0;
    while i < x.len()
        invariant
            i <= x.len(),
            x@.len() == y@.len(),
            x@ == a.spec_bytes(),
            y@ == b.spec_bytes(),
            forall|j: int| 0 <= j < i ==> x@[j] == y@[j],
        decreases x.len() - i,
    {
        if x[i] != y[i] {
            return false;
        }
        i += 1;
    }
    proof {
        assert(x@ =~= y@);
    }
    true
}

impl Pass {
    /// Gives the name of the pass.
    pub fn name(self) -> (r: &'static str)
        ensures
            r@ == name_text(self),
    {
        match self {
            Pass::OffsetCoalescing => "offset-coalescing",
            Pass::DeltaFolding => "delta-folding",
            Pass::ClearLoop => "clear-loop",
            Pass::CopyLoop => "copy-loop",
            Pass::DeadStore => "dead-store-elimination",
        }
    }

    /// Gives the pass with the given name, or `None` where there is none.
    pub fn from_name(name: &str) -> (r: Option<Pass>)
        ensures
            r == named(name@),
    {
        if same_text(name, Pass::OffsetCoalescing.name()) {
            Some(Pass::OffsetCoalescing)
        } else if same_text(name, Pass::DeltaFolding.name()) {
            Some(Pass::DeltaFolding)
        } else if same_text(name, Pass::ClearLoop.name()) {
            Some(Pass::ClearLoop)
        } else if same_text(name, Pass::CopyLoop.name()) {
            Some(Pass::CopyLoop)
        } else if same_text(name, Pass::DeadStore.name()) {
            Some(Pass::DeadStore)
        } else {
            None
        }
    }
}

fn add_pass(set: PassSet, pass: Pass) -> (r: PassSet)
    ensures
        r == plus(set, pass),
{
    match pass {
        Pass::OffsetCoalescing => PassSet { offset_coalescing: true, ..set },
        Pass::DeltaFolding => PassSet { delta_folding: true, ..set },
        Pass::ClearLoop => PassSet { clear_loop: true, ..set },
        Pass::CopyLoop => PassSet { copy_loop: true, ..set },
        Pass::DeadStore => PassSet { dead_store: true, ..set },
    }
}

proof fn lemma_pieces_step(s: Seq<char>, i: int)
    requires
        0 <= i < s.len(),
    ensures
        pieces(s.take(i)).len() >= 1,
        pieces(s.take(i + 1)) == if s[i] == ',' {
            pieces(s.take(i)).push(Seq::empty())
        } else {
            pieces(s.take(i)).drop_last().push(pieces(s.take(i)).last().push(s[i]))
        },
{
    assert(s.take(i + 1).drop_last() =~= s.take(i));
    lemma_pieces_some(s.take(i));
}

proof fn lemma_pieces_some(s: Seq<char>)
    ensures
        pieces(s).len() >= 1,
    decreases s.len(),
{
    if s.len() > 0 {
        lemma_pieces_some(s.drop_last());
    }
}

/// Reads a pass list: the names of passes, separated by commas. Gives the
/// set of the passes named, or `None` where a piece of the list is no
/// pass's name.
pub fn parse_pass_list(list: &str) -> (r: Option<PassSet>)
    ensures
        r == selected(pieces(list@)),
{
    let len = list.unicode_len();
    let mut set = PassSet {
        offset_coalescing: false,
        delta_folding: false,
        clear_loop: false,
        copy_loop: false,
        dead_store: false,
    };
    let mut from: usize = 0;
    let mut i: usize = 0;
    proof {
        assert(list@.take(0) =~= Seq::<char>::empty());
        assert(pieces(list@.take(0)).drop_last() =~= Seq::<Seq<char>>::empty());
        assert(list@.subrange(0, 0) =~= Seq::<char>::empty());
    }
    while i < len
        invariant
            from <= i <= len,
            len == list@.len(),
            pieces(list@.take(i as int)).len() >= 1,
            selected(pieces(list@.take(i as int)).drop_last()) == Some(set),
            pieces(list@.take(i as int)).last() == list@.subrange(from as int, i as int),
        decreases len - i,
    {
        let ghost before = pieces(list@.take(i as int));
        proof {
            lemma_pieces_step(list@, i as int);
        }
        if list.get_char(i) == ',' {
            let piece = list.substring_char(from, i);
            proof {
                assert(before.push(Seq::empty()).drop_last() =~= before);
                assert(before.drop_last().push(before.last()) =~= before);
            }
            match Pass::from_name(piece) {
                Some(pass) => {
                    set = add_pass(set, pass);
                },
                None => {
                    proof {
                        lemma_selected_prefix(list@, i as int + 1);
                    }
                    return None;
                },
            }
            from = i + 1;
            proof {
                assert(list@.subrange(from as int, i as int + 1) =~= Seq::<char>::empty());
            }
        } else {
            proof {
                let after = before.drop_last().push(before.last().push(list@[i as int]));
                assert(after.drop_last() =~= before.drop_last());
                assert(list@.subrange(from as int, i as int + 1) =~= list@.subrange(from as int, i as int).push(
                    list@[i as int],
                ));
            }
        }
        i += 1;
    }
    proof {
        assert(list@.take(i as int) =~= list@);
        let all = pieces(list@);
        assert(all.drop_last().push(all.last()) =~= all);
    }
    let piece = list.substring_char(from, len);
    match Pass::from_name(piece) {
        Some(pass) => Some(add_pass(set, pass)),
        None => None,
    }
}

proof fn lemma_selected_prefix(s: Seq<char>, i: int)
    requires
        0 <= i <= s.len(),
        pieces(s.take(i)).len() >= 2,
        selected(pieces(s.take(i)).drop_last()) is None,
    ensures
        selected(pieces(s)) is None,
    decreases s.len() - i,
{
    if i == s.len() {
        assert(s.take(i) =~= s);
        let all = pieces(s);
        assert(selected(all) is None);
    } else {
        lemma_pieces_step(s, i);
        let before = pieces(s.take(i));
        let after = pieces(s.take(i + 1));
        if s[i] == ',' {
            assert(after.drop_last() =~= before);
            assert(selected(before) is None);
        } else {
            assert(after.drop_last() =~= before.drop_last());
        }
        lemma_selected_prefix(s, i + 1);
    }
}

} // verus!
