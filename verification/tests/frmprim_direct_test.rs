//! The form primitives called directly, without the scanner.

use freemacs::frmprim::{register_frm_prims, DsPrim, GsPrim};
use freemacs::mint::{Mint, MintPrim};
use freemacs::mint_arg::{ArgType, MintArg, MintArgList};

fn arg_with_bytes(t: ArgType, value: &str) -> MintArg {
    let mut a = MintArg::new(t);
    a.append_slice(value.as_bytes());
    a
}

fn build_args(fn_name: &str, args: &[&str], fn_type: ArgType) -> MintArgList {
    let mut al = MintArgList::new();
    al.push_front(MintArg::new(ArgType::End));
    for &a in args.iter().rev() {
        al.push_front(arg_with_bytes(ArgType::Arg, a));
    }
    al.push_front(arg_with_bytes(fn_type, fn_name));
    al
}

#[test]
fn ds_sets_form_value() {
    let mut mint = Mint::new();
    register_frm_prims(&mut mint);

    // call #(ds, "m", "value")
    let args = build_args("ds", &["m", "value"], ArgType::Neutral);
    DsPrim.execute(mint.machine_mut(), false, &args);

    // check the form was stored
    let form = mint.get_form(&b"m".to_vec());
    assert!(form.is_some());
    assert_eq!(form.unwrap().content(), &b"value".to_vec());
}

#[test]
fn gs_returns_form_with_params() {
    let mut mint = Mint::new();
    register_frm_prims(&mut mint);

    mint.set_form_value(&b"f".to_vec(), &b"\x80".to_vec());

    let args = build_args("gs", &["f", "X"], ArgType::Neutral);
    GsPrim.execute(mint.machine_mut(), false, &args);

    assert!(mint.get_form(&b"f".to_vec()).is_some());
}
