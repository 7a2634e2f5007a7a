//! The environment primitive and the constant system variables.

use freemacs::mint::{Mint, MintPrim, ScanStatus};
use freemacs::mint_arg::MintArgList;
use freemacs::sysprim::{file_report, register_sys_prims, EnvVar, EvPrim};

fn form(interp: &Mint, name: &str) -> Option<String> {
    interp
        .get_form(&name.as_bytes().to_vec())
        .map(|f| String::from_utf8_lossy(f.content()).to_string())
}

#[test]
fn ev_defines_the_forms_of_the_environment() {
    let mut interp = Mint::with_initial_string(b"#(ev)");
    register_sys_prims(
        &mut interp,
        vec![b"/bin/emacs".to_vec(), b"-x".to_vec(), b"file".to_vec()],
        vec![
            EnvVar { key: b"PATH".to_vec(), value: b"/bin:/usr/bin".to_vec() },
            EnvVar { key: b"HOME".to_vec(), value: b"/root".to_vec() },
        ],
    );
    assert_eq!(ScanStatus::Called, interp.scan(false));
    assert_eq!(Some("-".to_string()), form(&interp, "env.SWITCHAR"));
    assert_eq!(Some("".to_string()), form(&interp, "env.SCREEN"));
    assert_eq!(Some("/bin/emacs".to_string()), form(&interp, "env.FULLPATH"));
    assert_eq!(Some("-x file ".to_string()), form(&interp, "env.RUNLINE"));
    assert_eq!(Some("/bin:/usr/bin".to_string()), form(&interp, "env.PATH"));
    assert_eq!(Some("/root".to_string()), form(&interp, "env.HOME"));
    assert_eq!(b"440".to_vec(), interp.get_var(&b"bp".to_vec()));
    assert_eq!(b"0".to_vec(), interp.get_var(&b"is".to_vec()));
    interp.set_var(&b"bp".to_vec(), &b"1".to_vec());
    interp.set_var(&b"is".to_vec(), &b"1".to_vec());
    assert_eq!(b"440".to_vec(), interp.get_var(&b"bp".to_vec()));
    assert_eq!(b"0".to_vec(), interp.get_var(&b"is".to_vec()));
}

#[test]
fn ev_without_a_command_line_defines_no_path() {
    let mut interp = Mint::new();
    let prim = EvPrim::new(Vec::new(), Vec::new());
    prim.execute(interp.machine_mut(), true, &MintArgList::new());
    assert_eq!(Some("-".to_string()), form(&interp, "env.SWITCHAR"));
    assert_eq!(None, form(&interp, "env.FULLPATH"));
    assert_eq!(None, form(&interp, "env.RUNLINE"));
}

#[test]
fn file_report_has_attributes_time_and_size() {
    assert_eq!(
        b"010000Sun Aug 08 09:01:03 2003 104323".to_vec(),
        file_report(true, false, b"Sun Aug 08 09:01:03 2003", 104323)
    );
    assert_eq!(b"000000t 0".to_vec(), file_report(false, true, b"t", 0));
    assert_eq!(
        b"000100 18446744073709551615".to_vec(),
        file_report(false, false, b"", u64::MAX)
    );
}
