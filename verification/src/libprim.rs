//! The library format: forms written as records, one after the other,
//! each a header of five little-endian 32-bit numbers, the name of the
//! form and its content.
//!
//! ```text
//! offset  size  field
//!  0       4    length of the whole record
//!  4       4    length of the name
//!  8       4    reserved: written as 0, not read
//! 12       4    position of the form's cursor
//! 16       4    length of the content
//! 20       N    name
//! 20+N     M    content
//! ```

use vstd::prelude::*;
use crate::bytes::{append_bytes, copy_range};
use crate::mint::{forms_moved, CoreView, MintMachine};
use crate::mint_arg::{val, ArgView, MintArgList};
use crate::mint_form::{
    lemma_store_find, lemma_store_find_at, lemma_store_put, moved_to, names_rise, store_find,
    store_get, store_ok, store_put, FormRecord, FormView, MintForm,
};
use crate::mint_types::MintString;

verus! {

/// The length of a record's header.
pub const HEADER_SIZE: usize = 20;

/// The four bytes of a 32-bit number, the lowest first.
pub open spec fn le_bytes(x: u32) -> Seq<u8> {
    seq![
        (x & 0xff) as u8,
        ((x >> 8) & 0xff) as u8,
        ((x >> 16) & 0xff) as u8,
        ((x >> 24) & 0xff) as u8,
    ]
}

/// The 32-bit number that four bytes, the lowest first, stand for.
pub open spec fn le_value(b0: u8, b1: u8, b2: u8, b3: u8) -> u32 {
    (b0 as u32) | ((b1 as u32) << 8) | ((b2 as u32) << 16) | ((b3 as u32) << 24)
}

/// The number that stands at `at` in `bytes`.
pub open spec fn le_at(bytes: Seq<u8>, at: int) -> u32 {
    le_value(bytes[at], bytes[at + 1], bytes[at + 2], bytes[at + 3])
}

/// Reading the bytes of a number gives the number.
pub proof fn lemma_le_round_trip(x: u32)
    ensures
        le_value(le_bytes(x)[0], le_bytes(x)[1], le_bytes(x)[2], le_bytes(x)[3]) == x,
        le_bytes(x).len() == 4,
{
    assert((((x & 0xff) as u8) as u32) | ((((x >> 8) & 0xff) as u8) as u32) << 8 | ((((x >> 16)
        & 0xff) as u8) as u32) << 16 | ((((x >> 24) & 0xff) as u8) as u32) << 24 == x)
        by (bit_vector);
}

/// The header of a record.
#[derive(Debug, Clone, Copy, PartialEq, Eq, Structural)]
pub struct LibHdr {
    pub total_length: u32,
    pub name_length: u32,
    pub reserved: u32,
    pub form_pos: u32,
    pub data_length: u32,
}

/// The twenty bytes of a header.
pub open spec fn header_bytes(h: LibHdr) -> Seq<u8> {
    le_bytes(h.total_length) + le_bytes(h.name_length) + le_bytes(h.reserved) + le_bytes(
        h.form_pos,
    ) + le_bytes(h.data_length)
}

/// The header that the first twenty bytes of `bytes` stand for.
pub open spec fn header_at(bytes: Seq<u8>) -> LibHdr {
    LibHdr {
        total_length: le_at(bytes, 0),
        name_length: le_at(bytes, 4),
        reserved: le_at(bytes, 8),
        form_pos: le_at(bytes, 12),
        data_length: le_at(bytes, 16),
    }
}

/// Reading the bytes of a header gives the header, whatever follows them.
pub proof fn lemma_header_round_trip(h: LibHdr, rest: Seq<u8>)
    ensures
        header_bytes(h).len() == HEADER_SIZE,
        header_at(header_bytes(h) + rest) == h,
{
    lemma_le_round_trip(h.total_length);
    lemma_le_round_trip(h.name_length);
    lemma_le_round_trip(h.reserved);
    lemma_le_round_trip(h.form_pos);
    lemma_le_round_trip(h.data_length);
    let b = header_bytes(h) + rest;
    assert(b[0] == le_bytes(h.total_length)[0]);
    assert(b[1] == le_bytes(h.total_length)[1]);
    assert(b[2] == le_bytes(h.total_length)[2]);
    assert(b[3] == le_bytes(h.total_length)[3]);
    assert(b[4] == le_bytes(h.name_length)[0]);
    assert(b[5] == le_bytes(h.name_length)[1]);
    assert(b[6] == le_bytes(h.name_length)[2]);
    assert(b[7] == le_bytes(h.name_length)[3]);
    assert(b[8] == le_bytes(h.reserved)[0]);
    assert(b[9] == le_bytes(h.reserved)[1]);
    assert(b[10] == le_bytes(h.reserved)[2]);
    assert(b[11] == le_bytes(h.reserved)[3]);
    assert(b[12] == le_bytes(h.form_pos)[0]);
    assert(b[13] == le_bytes(h.form_pos)[1]);
    assert(b[14] == le_bytes(h.form_pos)[2]);
    assert(b[15] == le_bytes(h.form_pos)[3]);
    assert(b[16] == le_bytes(h.data_length)[0]);
    assert(b[17] == le_bytes(h.data_length)[1]);
    assert(b[18] == le_bytes(h.data_length)[2]);
    assert(b[19] == le_bytes(h.data_length)[3]);
}

fn push_le(out: &mut MintString, x: u32)
    ensures
        final(out)@ == old(out)@ + le_bytes(x),
{
    out.push((x & 0xff) as u8);
    out.push(((x >> 8) & 0xff) as u8);
    out.push(((x >> 16) & 0xff) as u8);
    out.push(((x >> 24) & 0xff) as u8);
    assert(out@ =~= old(out)@ + le_bytes(x));
}

fn read_le(bytes: &[u8], at: usize) -> (x: u32)
    requires
        at + 4 <= bytes@.len(),
    ensures
        x == le_at(bytes@, at as int),
{
    (bytes[at] as u32) | ((bytes[at + 1] as u32) << 8) | ((bytes[at + 2] as u32) << 16) | ((bytes[at
        + 3] as u32) << 24)
}

impl LibHdr {
    /// The twenty bytes of the header.
    pub fn to_bytes(&self) -> (r: MintString)
        ensures
            r@ == header_bytes(*self),
    {
        let mut out: MintString = Vec::new();
        push_le(&mut out, self.total_length);
        push_le(&mut out, self.name_length);
        push_le(&mut out, self.reserved);
        push_le(&mut out, self.form_pos);
        push_le(&mut out, self.data_length);
        assert(out@ =~= header_bytes(*self));
        out
    }

    /// The header at the start of `bytes`; `None` if there are fewer than twenty bytes.
    pub fn from_bytes(bytes: &[u8]) -> (r: Option<Self>)
        ensures
            r == if bytes@.len() >= HEADER_SIZE {
                Some(header_at(bytes@))
            } else {
                None
            },
    {
        if bytes.len() < HEADER_SIZE {
            return None;
        }
        Some(
            Self {
                total_length: read_le(bytes, 0),
                name_length: read_le(bytes, 4),
                reserved: read_le(bytes, 8),
                form_pos: read_le(bytes, 12),
                data_length: read_le(bytes, 16),
            },
        )
    }
}

/// A length as the format holds it: in 32 bits, its higher bits cut off.
pub open spec fn length_field(n: int) -> u32 {
    (n % 0x1_0000_0000) as u32
}

/// The header of the record of a form.
pub open spec fn record_header(name: Seq<u8>, f: FormView) -> LibHdr {
    LibHdr {
        total_length: length_field(HEADER_SIZE + name.len() + f.content.len()),
        name_length: length_field(name.len() as int),
        reserved: 0,
        form_pos: if f.pos <= u32::MAX { f.pos as u32 } else { u32::MAX },
        data_length: length_field(f.content.len() as int),
    }
}

/// The record of a form.
pub open spec fn record_bytes(name: Seq<u8>, f: FormView) -> Seq<u8> {
    header_bytes(record_header(name, f)) + name + f.content
}

/// The records of the forms that the arguments in `[from, to)` name,
/// one after the other; a name without a form has no record.
pub open spec fn library_bytes(forms: Seq<FormRecord>, args: Seq<ArgView>, from: int, to: int) -> Seq<
    u8,
>
    decreases to - from,
{
    if to <= from {
        Seq::empty()
    } else {
        library_bytes(forms, args, from, to - 1) + (match store_get(forms, val(args, to - 1)) {
            Some(f) => record_bytes(val(args, to - 1), f),
            None => Seq::empty(),
        })
    }
}

/// The forms after a form was loaded: bound to its name, with its cursor where it was saved.
pub open spec fn form_loaded(forms: Seq<FormRecord>, name: Seq<u8>, content: Seq<u8>, pos: int) -> Seq<
    FormRecord,
> {
    forms_moved(store_put(forms, name, FormView { content, pos: 0 }), name, pos)
}

/// The forms after the records in `bytes` were loaded, one after the
/// other. A record that the bytes do not hold whole ends the loading.
pub open spec fn library_loaded(forms: Seq<FormRecord>, bytes: Seq<u8>) -> Seq<FormRecord>
    decreases bytes.len(),
{
    if bytes.len() < HEADER_SIZE {
        forms
    } else {
        let h = header_at(bytes);
        let end = HEADER_SIZE + h.name_length + h.data_length;
        if end > bytes.len() {
            forms
        } else {
            library_loaded(
                form_loaded(
                    forms,
                    bytes.subrange(HEADER_SIZE as int, HEADER_SIZE + h.name_length),
                    bytes.subrange(HEADER_SIZE + h.name_length, end),
                    h.form_pos as int,
                ),
                bytes.subrange(end, bytes.len() as int),
            )
        }
    }
}

fn low_bits(n: usize) -> (r: u32)
    ensures
        r == length_field(n as int),
{
    ((n as u64) % 0x1_0000_0000) as u32
}

/// Appends the record of the form `form` named `name` to `out`.
pub fn append_record(out: &mut MintString, name: &[u8], form: &MintForm)
    requires
        form.wf(),
    ensures
        final(out)@ == old(out)@ + record_bytes(name@, form@),
{
    let content = form.content();
    let total: u128 = (HEADER_SIZE as u128 + name.len() as u128 + content.len() as u128)
        % 0x1_0000_0000;
    let hdr = LibHdr {
        total_length: total as u32,
        name_length: low_bits(name.len()),
        reserved: 0,
        form_pos: form.get_pos(),
        data_length: low_bits(content.len()),
    };
    assert(hdr == record_header(name@, form@));
    let header = hdr.to_bytes();
    append_bytes(out, header.as_slice());
    append_bytes(out, name);
    append_bytes(out, content.as_slice());
    assert(out@ =~= old(out)@ + (header@ + name@ + content@));
}

/// The library of the forms that the arguments from the second on name:
/// what `#(sl,X,Y1,...,Yn)` writes to the file `X`.
pub fn save_library(interp: &MintMachine, args: &MintArgList) -> (r: MintString)
    requires
        interp.wf(),
        args.wf(),
    ensures
        r@ == library_bytes(interp@.forms, args@, 2, args@.len() - 1),
{
    let mut out: MintString = Vec::new();
    let last = if args.len() > 0 {
        args.len() - 1
    } else {
        0
    };
    let mut i: usize = 2;
    while i < last
        invariant
            2 <= i,
            i <= last || i == 2,
            last == if args@.len() > 0 { args@.len() - 1 } else { 0 },
            interp.wf(),
            args.wf(),
            out@ == library_bytes(interp@.forms, args@, 2, i as int),
        decreases last - i,
    {
        let form_name = args.get(i).value();
        if let Some(form) = interp.get_form(form_name) {
            append_record(&mut out, form_name.as_slice(), form);
        } else {
            assert(out@ + Seq::<u8>::empty() =~= out@);
        }
        i += 1;
    }
    out
}

/// Loads the library `bytes`: what `#(ll,X)` does with the content of
/// the file `X`. Each form in it replaces a form of its name.
pub fn load_library(interp: &mut MintMachine, bytes: &[u8])
    requires
        old(interp).wf(),
    ensures
        final(interp).wf(),
        final(interp)@ == (CoreView {
            forms: library_loaded(old(interp)@.forms, bytes@),
            ..old(interp)@
        }),
        final(interp).vars() == old(interp).vars(),
{
    let mut offset: usize = 0;
    let mut done = false;
    assert(bytes@.subrange(0, bytes@.len() as int) =~= bytes@);
    while !done
        invariant
            0 <= offset <= bytes@.len(),
            interp.wf(),
            interp.vars() == old(interp).vars(),
            interp@ == (CoreView { forms: interp@.forms, ..old(interp)@ }),
            library_loaded(interp@.forms, bytes@.subrange(offset as int, bytes@.len() as int))
                == library_loaded(old(interp)@.forms, bytes@),
            done ==> library_loaded(
                interp@.forms,
                bytes@.subrange(offset as int, bytes@.len() as int),
            ) == interp@.forms,
        decreases bytes@.len() - offset + (if done { 0int } else { 1int }),
    {
        let ghost rest = bytes@.subrange(offset as int, bytes@.len() as int);
        let total = bytes.len();
        if total - offset < HEADER_SIZE {
            done = true;
        } else {
            let hdr = LibHdr {
                total_length: read_le(bytes, offset),
                name_length: read_le(bytes, offset + 4),
                reserved: read_le(bytes, offset + 8),
                form_pos: read_le(bytes, offset + 12),
                data_length: read_le(bytes, offset + 16),
            };
            proof {
                assert forall|k: int| 0 <= k < 20 implies rest[k] == bytes@[offset + k] by {}
                assert(hdr == header_at(rest));
            }
            let name_len = hdr.name_length as usize;
            let data_len = hdr.data_length as usize;
            let room = total - offset - HEADER_SIZE;
            if name_len > room || data_len > room - name_len {
                done = true;
            } else {
                let name_at = offset + HEADER_SIZE;
                let data_at = name_at + name_len;
                let end = data_at + data_len;
                let form_name = copy_range(bytes, name_at, data_at);
                let form_value = copy_range(bytes, data_at, end);
                proof {
                    assert(form_name@ =~= rest.subrange(
                        HEADER_SIZE as int,
                        HEADER_SIZE + hdr.name_length,
                    ));
                    assert(form_value@ =~= rest.subrange(
                        HEADER_SIZE + hdr.name_length,
                        HEADER_SIZE + hdr.name_length + hdr.data_length,
                    ));
                    assert(rest.subrange(
                        HEADER_SIZE + hdr.name_length + hdr.data_length,
                        rest.len() as int,
                    ) =~= bytes@.subrange(end as int, bytes@.len() as int));
                }
                interp.set_form_value(&form_name, &form_value);
                interp.set_form_pos(&form_name, hdr.form_pos);
                offset = end;
            }
        }
    }
}

/// Whether the record of the form named `name`, if there is such a
/// form, has lengths that the format can hold.
pub open spec fn record_fits(forms: Seq<FormRecord>, name: Seq<u8>) -> bool {
    match store_get(forms, name) {
        Some(f) => HEADER_SIZE + name.len() + f.content.len() <= u32::MAX,
        None => true,
    }
}

/// The forms `dst` after the forms of `src` that the arguments in
/// `[from, to)` name were loaded into them, one after the other.
pub open spec fn forms_restored(
    dst: Seq<FormRecord>,
    src: Seq<FormRecord>,
    args: Seq<ArgView>,
    from: int,
    to: int,
) -> Seq<FormRecord>
    decreases to - from,
{
    if to <= from {
        dst
    } else {
        let before = forms_restored(dst, src, args, from, to - 1);
        match store_get(src, val(args, to - 1)) {
            Some(f) => form_loaded(before, val(args, to - 1), f.content, f.pos as int),
            None => before,
        }
    }
}

/// Loading a form binds its name to it, cursor and all, keeps the
/// names rising, and leaves every other name as it was.
pub proof fn lemma_form_loaded(forms: Seq<FormRecord>, name: Seq<u8>, content: Seq<u8>, pos: int)
    requires
        names_rise(forms),
        0 <= pos <= content.len(),
    ensures
        names_rise(form_loaded(forms, name, content, pos)),
        store_get(form_loaded(forms, name, content, pos), name) == Some(
            FormView { content, pos: pos as nat },
        ),
        forall|other: Seq<u8>|
            other != name ==> #[trigger] store_get(form_loaded(forms, name, content, pos), other)
                == store_get(forms, other),
{
    let put = store_put(forms, name, FormView { content, pos: 0 });
    lemma_store_put(forms, name, FormView { content, pos: 0 });
    lemma_store_find(put, name);
    let i = store_find(put, name);
    let done = form_loaded(forms, name, content, pos);
    assert(done == put.update(
        i,
        FormRecord { name: put[i].name, form: moved_to(put[i].form, pos) },
    ));
    assert forall|a: int, b: int| 0 <= a < b < done.len() implies crate::bytes::lex_lt(
        done[a].name,
        done[b].name,
    ) by {
        assert(done[a].name == put[a].name && done[b].name == put[b].name);
    }
    lemma_store_find_at(done, i);
    assert forall|other: Seq<u8>| other != name implies #[trigger] store_get(done, other)
        == store_get(forms, other) by {
        lemma_store_find(put, other);
        lemma_store_find(done, other);
        let k = store_find(put, other);
        let m = store_find(done, other);
        if k >= 0 {
            assert(done[k] == put[k]);
            lemma_store_find_at(done, k);
        } else if m >= 0 {
            assert(put[m].name == done[m].name);
        }
        assert(store_get(put, other) == store_get(forms, other));
    }
}

/// A record in front of other bytes is loaded as the form it was made of.
pub proof fn lemma_record_loaded(forms: Seq<FormRecord>, name: Seq<u8>, f: FormView, rest: Seq<u8>)
    requires
        HEADER_SIZE + name.len() + f.content.len() <= u32::MAX,
        f.pos <= f.content.len(),
    ensures
        library_loaded(forms, record_bytes(name, f) + rest) == library_loaded(
            form_loaded(forms, name, f.content, f.pos as int),
            rest,
        ),
{
    let h = record_header(name, f);
    let bytes = record_bytes(name, f) + rest;
    lemma_header_round_trip(h, name + f.content + rest);
    assert(bytes =~= header_bytes(h) + (name + f.content + rest));
    assert(h.name_length == name.len());
    assert(h.data_length == f.content.len());
    assert(h.form_pos == f.pos);
    let end = HEADER_SIZE + h.name_length + h.data_length;
    assert(bytes.subrange(HEADER_SIZE as int, HEADER_SIZE + h.name_length) =~= name);
    assert(bytes.subrange(HEADER_SIZE + h.name_length, end) =~= f.content);
    assert(bytes.subrange(end, bytes.len() as int) =~= rest);
}

/// A library in front of other bytes is loaded as the forms it was made of.
#[verifier::spinoff_prover]
#[verifier::rlimit(50)]
pub proof fn lemma_library_loaded(
    dst: Seq<FormRecord>,
    src: Seq<FormRecord>,
    args: Seq<ArgView>,
    from: int,
    to: int,
    rest: Seq<u8>,
)
    requires
        store_ok(src),
        forall|i: int| from <= i < to ==> record_fits(src, #[trigger] val(args, i)),
    ensures
        library_loaded(dst, library_bytes(src, args, from, to) + rest) == library_loaded(
            forms_restored(dst, src, args, from, to),
            rest,
        ),
    decreases to - from,
{
    if to <= from {
        assert(library_bytes(src, args, from, to) + rest =~= rest);
    } else {
        let name = val(args, to - 1);
        let head = library_bytes(src, args, from, to - 1);
        let before = forms_restored(dst, src, args, from, to - 1);
        let all = library_bytes(src, args, from, to);
        assert(record_fits(src, name));
        match store_get(src, name) {
            Some(f) => {
                let rec = record_bytes(name, f);
                assert(all == head + rec);
                lemma_store_find(src, name);
                assert(f.pos <= f.content.len());
                lemma_library_loaded(dst, src, args, from, to - 1, rec + rest);
                assert(all + rest == head + (rec + rest)) by {
                    assert(all + rest =~= head + (rec + rest));
                }
                lemma_record_loaded(before, name, f, rest);
                assert(forms_restored(dst, src, args, from, to) == form_loaded(
                    before,
                    name,
                    f.content,
                    f.pos as int,
                ));
            },
            None => {
                lemma_library_loaded(dst, src, args, from, to - 1, rest);
                assert(all == head + Seq::<u8>::empty());
                assert(all + rest == head + rest) by {
                    assert(all + rest =~= head + rest);
                }
                assert(forms_restored(dst, src, args, from, to) == before);
            },
        }
    }
}

/// The forms restored keep their names rising, and each form named is as it was in `src`.
pub proof fn lemma_forms_restored(
    dst: Seq<FormRecord>,
    src: Seq<FormRecord>,
    args: Seq<ArgView>,
    from: int,
    to: int,
)
    requires
        store_ok(src),
        names_rise(dst),
    ensures
        names_rise(forms_restored(dst, src, args, from, to)),
        forall|k: int|
            from <= k < to && store_get(src, val(args, k)).is_some() ==> store_get(
                forms_restored(dst, src, args, from, to),
                #[trigger] val(args, k),
            ) == store_get(src, val(args, k)),
    decreases to - from,
{
    if to > from {
        let name = val(args, to - 1);
        let before = forms_restored(dst, src, args, from, to - 1);
        lemma_forms_restored(dst, src, args, from, to - 1);
        match store_get(src, name) {
            Some(f) => {
                lemma_store_find(src, name);
                assert(f.pos <= f.content.len());
                lemma_form_loaded(before, name, f.content, f.pos as int);
                let after = forms_restored(dst, src, args, from, to);
                assert forall|k: int|
                    from <= k < to && store_get(src, val(args, k)).is_some() implies store_get(
                    after,
                    #[trigger] val(args, k),
                ) == store_get(src, val(args, k)) by {
                    if val(args, k) != name {
                        assert(store_get(after, val(args, k)) == store_get(before, val(args, k)));
                    }
                }
            },
            None => {},
        }
    }
}

/// A library round trip: when the forms that the arguments in
/// `[from, to)` name are saved, and the library is loaded into any
/// forms, be it after all forms were erased, every form saved is there
/// again with the content and the cursor that it had. It holds of the
/// forms whose records have lengths that the format can hold.
pub proof fn law_library_round_trip(
    saved: Seq<FormRecord>,
    loaded_into: Seq<FormRecord>,
    args: Seq<ArgView>,
    from: int,
    to: int,
    k: int,
)
    requires
        store_ok(saved),
        store_ok(loaded_into),
        from <= k < to,
        forall|i: int| from <= i < to ==> record_fits(saved, #[trigger] val(args, i)),
        store_get(saved, val(args, k)).is_some(),
    ensures
        store_get(
            library_loaded(loaded_into, library_bytes(saved, args, from, to)),
            val(args, k),
        ) == store_get(saved, val(args, k)),
{
    let bytes = library_bytes(saved, args, from, to);
    lemma_library_loaded(loaded_into, saved, args, from, to, Seq::empty());
    assert(bytes + Seq::<u8>::empty() =~= bytes);
    lemma_forms_restored(loaded_into, saved, args, from, to);
}

} // verus!
