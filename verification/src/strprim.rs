//! The string primitives: comparison, length, ordering, sorting,
//! translation through a form, and the line break.

use vstd::prelude::*;
use crate::bytes::{
    append_bytes, bytes_eq, bytes_le, bytes_lt, copy_bytes, lemma_lex_lt_asymmetric,
    lemma_lex_lt_total, lemma_lex_lt_transitive, lex_le, lex_lt, name2,
};
use crate::mint::{returned, CoreView, Mint, MintMachine, MintPrim, VarEntry};
use crate::mint_arg::{val, ArgView, MintArgList};
use crate::mint_form::store_get;
use crate::mint_string::number_text;
use crate::mint_types::MintString;

verus! {

/// `#(==,X,Y,A,B)`: returns `A` if `X` and `Y` are the same text, else `B`.
pub struct EqPrim;

impl MintPrim for EqPrim {
    open spec fn admits(
        &self,
        vars: Seq<VarEntry>,
        before: CoreView,
        is_active: bool,
        args: Seq<ArgView>,
        after: CoreView,
        vars_after: Seq<VarEntry>,
    ) -> bool {
        vars_after == vars && after == returned(
            before,
            is_active,
            if val(args, 1) == val(args, 2) {
                val(args, 3)
            } else {
                val(args, 4)
            },
        )
    }

    fn execute(&self, interp: &mut MintMachine, is_active: bool, args: &MintArgList) {
        let a1 = args.get(1).value();
        let a2 = args.get(2).value();
        let result = if bytes_eq(a1.as_slice(), a2.as_slice()) {
            args.get(3).value()
        } else {
            args.get(4).value()
        };
        interp.return_string(is_active, result);
    }
}

/// `#(!=,X,Y,A,B)`: returns `A` if `X` and `Y` are different texts, else `B`.
pub struct NePrim;

impl MintPrim for NePrim {
    open spec fn admits(
        &self,
        vars: Seq<VarEntry>,
        before: CoreView,
        is_active: bool,
        args: Seq<ArgView>,
        after: CoreView,
        vars_after: Seq<VarEntry>,
    ) -> bool {
        vars_after == vars && after == returned(
            before,
            is_active,
            if val(args, 1) != val(args, 2) {
                val(args, 3)
            } else {
                val(args, 4)
            },
        )
    }

    fn execute(&self, interp: &mut MintMachine, is_active: bool, args: &MintArgList) {
        let a1 = args.get(1).value();
        let a2 = args.get(2).value();
        let result = if !bytes_eq(a1.as_slice(), a2.as_slice()) {
            args.get(3).value()
        } else {
            args.get(4).value()
        };
        interp.return_string(is_active, result);
    }
}

/// `#(nc,X)`: returns the number of bytes of `X`, in decimal. A
/// number beyond 32 bits is cut to its low 32 bits.
pub struct NcPrim;

impl MintPrim for NcPrim {
    open spec fn admits(
        &self,
        vars: Seq<VarEntry>,
        before: CoreView,
        is_active: bool,
        args: Seq<ArgView>,
        after: CoreView,
        vars_after: Seq<VarEntry>,
    ) -> bool {
        vars_after == vars && after == returned(
            before,
            is_active,
            number_text((val(args, 1).len() as i32) as int, 10),
        )
    }

    fn execute(&self, interp: &mut MintMachine, is_active: bool, args: &MintArgList) {
        let s = args.get(1).value();
        let n = #[verifier::truncate] (s.len() as i32);
        interp.return_integer(is_active, n, 10);
    }
}

/// `#(a?,X,Y,A,B)`: returns `A` if `X` is not above `Y` in
/// lexicographic order, else `B`.
pub struct AoPrim;

impl MintPrim for AoPrim {
    open spec fn admits(
        &self,
        vars: Seq<VarEntry>,
        before: CoreView,
        is_active: bool,
        args: Seq<ArgView>,
        after: CoreView,
        vars_after: Seq<VarEntry>,
    ) -> bool {
        vars_after == vars && after == returned(
            before,
            is_active,
            if lex_le(val(args, 1), val(args, 2)) {
                val(args, 3)
            } else {
                val(args, 4)
            },
        )
    }

    fn execute(&self, interp: &mut MintMachine, is_active: bool, args: &MintArgList) {
        let a1 = args.get(1).value();
        let a2 = args.get(2).value();
        let result = if bytes_le(a1.as_slice(), a2.as_slice()) {
            args.get(3).value()
        } else {
            args.get(4).value()
        };
        interp.return_string(is_active, result);
    }
}

/// Whether the texts rise: none is above one behind it.
pub open spec fn rises(s: Seq<Seq<u8>>) -> bool {
    forall|i: int, j: int| 0 <= i < j < s.len() ==> !lex_lt(s[j], s[i])
}

/// The number of texts of `s` that are not above `x`: where `x`
/// belongs in `s`, behind its equals.
pub open spec fn rank_in(s: Seq<Seq<u8>>, x: Seq<u8>) -> int
    decreases s.len(),
{
    if s.len() == 0 {
        0
    } else {
        rank_in(s.drop_last(), x) + (if lex_lt(x, s.last()) { 0int } else { 1int })
    }
}

/// The texts in rising order: each one put where it belongs among those before it.
pub open spec fn sorted_of(items: Seq<Seq<u8>>) -> Seq<Seq<u8>>
    decreases items.len(),
{
    if items.len() == 0 {
        Seq::empty()
    } else {
        let t = sorted_of(items.drop_last());
        t.insert(rank_in(t, items.last()), items.last())
    }
}

/// The texts one after the other, with `sep` between one and the next.
pub open spec fn joined(items: Seq<Seq<u8>>, sep: Seq<u8>) -> Seq<u8>
    decreases items.len(),
{
    if items.len() == 0 {
        Seq::empty()
    } else if items.len() == 1 {
        items[0]
    } else {
        joined(items.drop_last(), sep) + sep + items.last()
    }
}

/// In rising texts, those not above `x` are the first `rank_in` ones.
pub proof fn lemma_rank_in(s: Seq<Seq<u8>>, x: Seq<u8>)
    requires
        rises(s),
    ensures
        0 <= rank_in(s, x) <= s.len(),
        forall|i: int| 0 <= i < rank_in(s, x) ==> !lex_lt(x, #[trigger] s[i]),
        forall|i: int| rank_in(s, x) <= i < s.len() ==> lex_lt(x, #[trigger] s[i]),
    decreases s.len(),
{
    if s.len() > 0 {
        let t = s.drop_last();
        assert forall|a: int, b: int| 0 <= a < b < t.len() implies !lex_lt(t[b], t[a]) by {
            assert(t[a] == s[a] && t[b] == s[b]);
        }
        lemma_rank_in(t, x);
        let r = rank_in(t, x);
        if !lex_lt(x, s.last()) {
            assert forall|i: int| 0 <= i < t.len() implies !lex_lt(x, #[trigger] t[i]) by {
                assert(t[i] == s[i]);
                if lex_lt(x, s[i]) {
                    lemma_lex_lt_total(s[i], s.last());
                    if lex_lt(s[i], s.last()) {
                        lemma_lex_lt_transitive(x, s[i], s.last());
                    }
                }
            }
            assert(r == t.len()) by {
                if r < t.len() {
                    assert(lex_lt(x, t[r]));
                }
            }
        }
        assert forall|i: int| 0 <= i < rank_in(s, x) implies !lex_lt(x, #[trigger] s[i]) by {
            if i < t.len() {
                assert(t[i] == s[i]);
            }
        }
        assert forall|i: int| rank_in(s, x) <= i < s.len() implies lex_lt(x, #[trigger] s[i]) by {
            if i < t.len() {
                assert(t[i] == s[i]);
            }
        }
    }
}

/// Putting a text where it belongs keeps the texts rising.
pub proof fn lemma_insert_rises(s: Seq<Seq<u8>>, x: Seq<u8>)
    requires
        rises(s),
    ensures
        rises(s.insert(rank_in(s, x), x)),
{
    lemma_rank_in(s, x);
    let r = rank_in(s, x);
    let t = s.insert(r, x);
    assert forall|a: int, b: int| 0 <= a < b < t.len() implies !lex_lt(t[b], t[a]) by {
        if b == r {
            assert(t[a] == s[a]);
        } else if a == r {
            assert(t[b] == s[b - 1]);
            lemma_lex_lt_asymmetric(x, s[b - 1]);
        } else {
            assert(t[a] == s[if a < r { a } else { a - 1 }]);
            assert(t[b] == s[if b < r { b } else { b - 1 }]);
        }
    }
}

/// The sorted texts rise, and they are the same texts, each as often as before.
pub proof fn lemma_sorted_of(items: Seq<Seq<u8>>)
    ensures
        rises(sorted_of(items)),
        sorted_of(items).len() == items.len(),
        sorted_of(items).to_multiset() == items.to_multiset(),
    decreases items.len(),
{
    if items.len() == 0 {
        assert(items =~= Seq::<Seq<u8>>::empty());
    } else {
        let rest = items.drop_last();
        let t = sorted_of(rest);
        lemma_sorted_of(rest);
        lemma_rank_in(t, items.last());
        lemma_insert_rises(t, items.last());
        vstd::seq_lib::to_multiset_insert(t, rank_in(t, items.last()), items.last());
        vstd::seq_lib::to_multiset_build(rest, items.last());
        assert(rest.push(items.last()) =~= items);
        assert(sorted_of(items).to_multiset() =~= t.to_multiset().insert(items.last()));
        assert(items.to_multiset() =~= rest.to_multiset().insert(items.last()));
    }
}

/// The texts that a sequence of byte strings holds.
pub open spec fn texts_of(v: Seq<MintString>) -> Seq<Seq<u8>> {
    v.map_values(|x: MintString| x@)
}

/// Sorts byte strings into rising order.
pub fn sort_items(items: Vec<MintString>) -> (r: Vec<MintString>)
    ensures
        texts_of(r@) == sorted_of(texts_of(items@)),
{
    let mut sorted: Vec<MintString> = Vec::new();
    let mut items = items;
    let ghost all = texts_of(items@);
    let mut k: usize = 0;
    assert(texts_of(sorted@) =~= sorted_of(all.subrange(0, 0)));
    while k < items.len()
        invariant
            0 <= k <= items@.len(),
            all == texts_of(items@),
            texts_of(sorted@) == sorted_of(all.subrange(0, k as int)),
        decreases items@.len() - k,
    {
        let item = copy_bytes(items[k].as_slice());
        let ghost t = texts_of(sorted@);
        proof {
            lemma_sorted_of(all.subrange(0, k as int));
            lemma_rank_in(t, item@);
            assert(all[k as int] == item@);
            assert(all.subrange(0, k + 1).drop_last() =~= all.subrange(0, k as int));
            assert(all.subrange(0, k + 1).last() == item@);
        }
        let mut pos: usize = 0;
        while pos < sorted.len() && !bytes_lt(item.as_slice(), sorted[pos].as_slice())
            invariant
                0 <= pos <= sorted@.len(),
                t == texts_of(sorted@),
                forall|i: int| 0 <= i < pos ==> !lex_lt(item@, #[trigger] t[i]),
            decreases sorted@.len() - pos,
        {
            assert(t[pos as int] == sorted@[pos as int]@);
            pos += 1;
        }
        proof {
            if pos < sorted@.len() {
                assert(t[pos as int] == sorted@[pos as int]@);
            }
            let r = rank_in(t, item@);
            if r < pos {
                assert(!lex_lt(item@, t[r]));
            }
            if r > pos {
                assert(lex_lt(item@, t[pos as int]));
            }
        }
        sorted.insert(pos, item);
        assert(texts_of(sorted@) =~= t.insert(pos as int, item@));
        k += 1;
    }
    assert(all.subrange(0, items@.len() as int) =~= all);
    sorted
}

/// The values of the arguments in `[from, to)`.
pub open spec fn values_of(args: Seq<ArgView>, from: int, to: int) -> Seq<Seq<u8>> {
    if to > from {
        Seq::new((to - from) as nat, |k: int| val(args, from + k))
    } else {
        Seq::empty()
    }
}

/// `#(sa,X1,...,Xn)`: returns `X1` to `Xn` in rising lexicographic
/// order, with a comma between one and the next.
pub struct SaPrim;

impl MintPrim for SaPrim {
    open spec fn admits(
        &self,
        vars: Seq<VarEntry>,
        before: CoreView,
        is_active: bool,
        args: Seq<ArgView>,
        after: CoreView,
        vars_after: Seq<VarEntry>,
    ) -> bool {
        vars_after == vars && after == returned(
            before,
            is_active,
            joined(sorted_of(values_of(args, 1, args.len() - 1)), seq![44u8]),
        )
    }

    fn execute(&self, interp: &mut MintMachine, is_active: bool, args: &MintArgList) {
        let mut items: Vec<MintString> = Vec::new();
        let last = if args.len() > 0 {
            args.len() - 1
        } else {
            0
        };
        let mut i: usize = 1;
        assert(texts_of(items@) =~= values_of(args@, 1, 1));
        while i < last
            invariant
                1 <= i,
                i <= last || i == 1,
                last == if args@.len() > 0 { args@.len() - 1 } else { 0 },
                args.wf(),
                items@.len() == i - 1,
                texts_of(items@) == values_of(args@, 1, i as int),
            decreases last - i,
        {
            let ghost before = items@;
            items.push(copy_bytes(args.get(i).value().as_slice()));
            assert(texts_of(items@) =~= values_of(args@, 1, i + 1)) by {
                assert forall|k: int| 0 <= k < i implies texts_of(items@)[k] == val(args@, 1 + k) by {
                    if k < i - 1 {
                        assert(items@[k] == before[k]);
                        assert(texts_of(before)[k] == before[k]@);
                        assert(values_of(args@, 1, i as int)[k] == val(args@, 1 + k));
                    }
                }
            }
            i += 1;
        }
        assert(values_of(args@, 1, i as int) =~= values_of(args@, 1, args@.len() - 1));
        let sorted = sort_items(items);
        let ghost t = texts_of(sorted@);
        let mut result: MintString = Vec::new();
        let mut k: usize = 0;
        assert(t.subrange(0, 0) =~= Seq::<Seq<u8>>::empty());
        while k < sorted.len()
            invariant
                0 <= k <= sorted@.len(),
                t == texts_of(sorted@),
                result@ == joined(t.subrange(0, k as int), seq![44u8]),
            decreases sorted@.len() - k,
        {
            proof {
                let next = t.subrange(0, k + 1);
                assert(next.drop_last() =~= t.subrange(0, k as int));
                assert(next.last() == sorted@[k as int]@);
                if k == 0 {
                    assert(next[0] == sorted@[0]@);
                    assert(result@ + sorted@[0]@ =~= sorted@[0]@);
                }
            }
            if k > 0 {
                result.push(44u8);
                assert(result@ =~= joined(t.subrange(0, k as int), seq![44u8]) + seq![44u8]);
            }
            append_bytes(&mut result, sorted[k].as_slice());
            k += 1;
        }
        assert(t.subrange(0, sorted@.len() as int) =~= t);
        interp.return_string(is_active, &result);
    }
}

/// What `#(si,X,Y)` makes of `text` with the table `table`: each byte
/// with a code inside the table becomes the byte of the table at that
/// place, any other byte stays.
pub open spec fn indexed(table: Seq<u8>, text: Seq<u8>) -> Seq<u8> {
    Seq::new(
        text.len(),
        |i: int|
            if (text[i] as int) < table.len() {
                table[text[i] as int]
            } else {
                text[i]
            },
    )
}

/// `#(si,X,Y)`: returns `Y` with each byte looked up in the form `X`
/// by its code; `Y` as it is if there is no form `X`.
pub struct SiPrim;

impl MintPrim for SiPrim {
    open spec fn admits(
        &self,
        vars: Seq<VarEntry>,
        before: CoreView,
        is_active: bool,
        args: Seq<ArgView>,
        after: CoreView,
        vars_after: Seq<VarEntry>,
    ) -> bool {
        vars_after == vars && after == returned(
            before,
            is_active,
            match store_get(before.forms, val(args, 1)) {
                Some(f) => indexed(f.content, val(args, 2)),
                None => val(args, 2),
            },
        )
    }

    fn execute(&self, interp: &mut MintMachine, is_active: bool, args: &MintArgList) {
        let form_name = args.get(1).value();
        let orig = args.get(2).value();
        let mut result: MintString = Vec::new();
        match interp.get_form(form_name) {
            Some(form) => {
                let form_content = form.content();
                let mut i: usize = 0;
                while i < orig.len()
                    invariant
                        0 <= i <= orig@.len(),
                        result@ == indexed(form_content@, orig@).subrange(0, i as int),
                    decreases orig@.len() - i,
                {
                    let ch = orig[i];
                    let index = ch as usize;
                    if index < form_content.len() {
                        result.push(form_content[index]);
                    } else {
                        result.push(ch);
                    }
                    assert(result@ =~= indexed(form_content@, orig@).subrange(0, i + 1));
                    i += 1;
                }
                assert(result@ =~= indexed(form_content@, orig@));
            },
            None => {
                append_bytes(&mut result, orig.as_slice());
                assert(result@ =~= orig@);
            },
        }
        interp.return_string(is_active, &result);
    }
}

/// `#(nl)`: returns the line break.
pub struct NlPrim;

impl MintPrim for NlPrim {
    open spec fn admits(
        &self,
        vars: Seq<VarEntry>,
        before: CoreView,
        is_active: bool,
        args: Seq<ArgView>,
        after: CoreView,
        vars_after: Seq<VarEntry>,
    ) -> bool {
        vars_after == vars && after == returned(before, is_active, seq![10u8])
    }

    fn execute(&self, interp: &mut MintMachine, is_active: bool, _args: &MintArgList) {
        let mut newline: MintString = Vec::new();
        newline.push(10u8);
        assert(newline@ =~= seq![10u8]);
        interp.return_string(is_active, &newline);
    }
}

/// Whether `n` is the name of one of the primitives that `register_str_prims` registers.
pub open spec fn is_str_prim_name(n: Seq<u8>) -> bool {
    n == seq![61u8, 61u8]
    || n == seq![33u8, 61u8]
    || n == seq![110u8, 99u8]
    || n == seq![97u8, 63u8]
    || n == seq![115u8, 97u8]
    || n == seq![115u8, 105u8]
    || n == seq![110u8, 108u8]
}

/// Registers the string primitives: `==`, `!=`, `nc`, `a?`, `sa`, `si` and `nl`.
pub fn register_str_prims(interp: &mut Mint)
    ensures
        final(interp)@ == old(interp)@,
        old(interp).wf() ==> final(interp).wf(),
        final(interp).vars() == old(interp).vars(),
        forall|n: Seq<u8>|
            #[trigger] final(interp).has_prim(n) == (old(interp).has_prim(n) || is_str_prim_name(n)),
        final(interp).prim_is(seq![61u8, 61u8], EqPrim),
        final(interp).prim_is(seq![33u8, 61u8], NePrim),
        final(interp).prim_is(seq![110u8, 99u8], NcPrim),
        final(interp).prim_is(seq![97u8, 63u8], AoPrim),
        final(interp).prim_is(seq![115u8, 97u8], SaPrim),
        final(interp).prim_is(seq![115u8, 105u8], SiPrim),
        final(interp).prim_is(seq![110u8, 108u8], NlPrim),
        forall|
            n: Seq<u8>,
            vars: Seq<VarEntry>,
            before: CoreView,
            is_active: bool,
            args: Seq<ArgView>,
            after: CoreView,
            vars_after: Seq<VarEntry>,
        |
            !is_str_prim_name(n) ==> #[trigger] final(interp).prim_admits(
                n,
                vars,
                before,
                is_active,
                args,
                after,
                vars_after,
            ) == old(interp).prim_admits(
                n,
                vars,
                before,
                is_active,
                args,
                after,
                vars_after,
            ),
{
    proof {
        assert(seq![61u8, 61u8][0] == 61 && seq![61u8, 61u8][1] == 61);
        assert(seq![33u8, 61u8][0] == 33 && seq![33u8, 61u8][1] == 61);
        assert(seq![110u8, 99u8][0] == 110 && seq![110u8, 99u8][1] == 99);
        assert(seq![97u8, 63u8][0] == 97 && seq![97u8, 63u8][1] == 63);
        assert(seq![115u8, 97u8][0] == 115 && seq![115u8, 97u8][1] == 97);
        assert(seq![115u8, 105u8][0] == 115 && seq![115u8, 105u8][1] == 105);
        assert(seq![110u8, 108u8][0] == 110 && seq![110u8, 108u8][1] == 108);
    }
    interp.add_prim(name2(61, 61), Box::new(EqPrim));
    interp.add_prim(name2(33, 61), Box::new(NePrim));
    interp.add_prim(name2(110, 99), Box::new(NcPrim));
    interp.add_prim(name2(97, 63), Box::new(AoPrim));
    interp.add_prim(name2(115, 97), Box::new(SaPrim));
    interp.add_prim(name2(115, 105), Box::new(SiPrim));
    interp.add_prim(name2(110, 108), Box::new(NlPrim));
}

} // verus!
