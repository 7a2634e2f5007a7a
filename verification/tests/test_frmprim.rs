//! The form primitives run from scripts, with every family of primitives registered.

use std::cell::RefCell;
use std::rc::Rc;

use freemacs::bufprim::register_buf_prims;
use freemacs::frmprim::register_frm_prims;
use freemacs::mint::{Mint, MintMachine, MintPrim, ScanStatus};
use freemacs::mint_arg::MintArgList;
use freemacs::mthprim::register_mth_prims;
use freemacs::strprim::register_str_prims;
use freemacs::sysprim::register_sys_prims;
use freemacs::varprim::register_var_prims;

struct OwPrim {
    output: Rc<RefCell<String>>,
}

impl OwPrim {
    fn new(output: Rc<RefCell<String>>) -> Self {
        OwPrim { output }
    }
}

impl MintPrim for OwPrim {
    fn execute(&self, interp: &mut MintMachine, is_active: bool, args: &MintArgList) {
        let mut output = self.output.borrow_mut();
        for i in 1..args.len() {
            output.extend(String::from_utf8(args.get(i).value().clone()).unwrap().chars());
        }
        interp.return_null(is_active);
    }
}

struct TestMint {
    interp: Mint,
    output: Rc<RefCell<String>>,
}

impl TestMint {
    fn new(script: &str) -> Self {
        let mut interp = Mint::with_initial_string(script.as_bytes());
        let output = Rc::new(RefCell::new(String::new()));
        let ow_prim = OwPrim::new(output.clone());
        interp.add_prim(b"ow".to_vec(), Box::new(ow_prim));

        register_buf_prims(&mut interp);
        register_frm_prims(&mut interp);
        register_mth_prims(&mut interp);
        register_str_prims(&mut interp);
        register_sys_prims(&mut interp, Vec::new(), Vec::new());
        register_var_prims(&mut interp);

        TestMint { interp, output }
    }

    /// Scans until the script has run out.
    fn result(&mut self) -> String {
        while self.interp.scan(false) == ScanStatus::Called && !self.interp.is_idle() {}
        self.output.borrow().clone()
    }
}
const OK: &str = "OK";

#[test]
fn test_frmprim_ds_prim() {
    assert_eq!(
        "Test string",
        TestMint::new("#(ds,zz,Test string)#(ow,#(zz))").result()
    );
    assert_eq!(
        "Test string",
        TestMint::new("#(ds,zz,Test string)#(ow,##(zz))").result()
    );
}

#[test]
fn test_frmprim_gs_prim() {
    assert_eq!(
        "Test string",
        TestMint::new("#(ds,zz,Test string)#(ow,#(gs,zz))").result()
    );
    assert_eq!(
        "Test string",
        TestMint::new("#(ds,zz,Test string)#(ow,##(gs,zz))").result()
    );
}

#[test]
fn test_frmprim_go_prim() {
    assert_eq!("", TestMint::new("#(ds,zz,AB)#(ow,##(go,zzz,OK))").result());
    assert_eq!("A", TestMint::new("#(ds,zz,AB)#(ow,#(go,zz,OK))").result());
    assert_eq!("A", TestMint::new("#(ds,zz,AB)#(ow,##(go,zz,OK))").result());
    assert_eq!(
        "ABOK",
        TestMint::new("#(ds,zz,AB)#(ow,##(go,zz,OK)##(go,zz,OK)##(go,zz,OK))").result()
    );
    assert_eq!(
        "AOKB",
        TestMint::new("#(ds,zz,AB)#(ow,##(go,zz,OK)OK##(gs,zz))").result()
    );
}

#[test]
fn test_frmprim_gn_prim() {
    // When fewer bytes are left than asked for, those are returned; at the
    // end of the form the third argument is returned in active mode.
    assert_eq!(
        "",
        TestMint::new("#(ds,zz,AB)#(ow,#(gn,zzz,1,BAD))").result()
    );
    assert_eq!(
        "A",
        TestMint::new("#(ds,zz,AB)#(ow,#(gn,zz,1,BAD))").result()
    );
    assert_eq!(
        "A",
        TestMint::new("#(ds,zz,AB)#(ow,##(gn,zz,1,BAD))").result()
    );
    assert_eq!(
        "ABOK",
        TestMint::new("#(ds,zz,AB)#(ow,##(gn,zz,2,BAD)##(gn,zz,2,OK))").result()
    );
    assert_eq!(
        "AOKB",
        TestMint::new("#(ds,zz,AB)#(ow,##(gn,zz,1,BAD)OK##(gs,zz))").result()
    );
}

#[test]
fn test_frmprim_rs_prim() {
    assert_eq!(
        "AAB",
        TestMint::new("#(ow,#(ds,zz,AB)#(go,zz,BAD)#(rs,zz)#(gs,zz,BAD))").result()
    );
}

#[test]
fn test_frmprim_fm_prim() {
    assert_eq!(
        "AC",
        TestMint::new("#(ow,#(ds,zz,ABC)#(fm,zz,B,BAD)#(gs,zz,BAD))").result()
    );
    assert_eq!(
        "",
        TestMint::new("#(ow,#(ds,zz,ABC)#(fm,zzz,B,BAD))").result()
    );
    assert_eq!(
        "OK",
        TestMint::new("#(ow,#(ds,zz,ABC)#(fm,zz,,OK))").result()
    );
    assert_eq!(
        "OK",
        TestMint::new("#(ow,#(ds,zz,ABC)#(fm,zz,D,OK))").result()
    );
}

#[test]
fn test_frmprim_nx_prim() {
    assert_eq!(
        "OK",
        TestMint::new("#(ow,#(ds,zz,ABC)#(n?,zz,OK,BAD))").result()
    );
    assert_eq!(
        "OK",
        TestMint::new("#(ow,#(ds,zz,ABC)#(n?,zzz,BAD,OK))").result()
    );
}

#[test]
fn test_frmprim_ls_prim() {
    assert_eq!(
        "z,zz,zzz",
        TestMint::new("#(ow,#(ds,z,ABC)#(ds,zz,ABC)#(ds,zzz,ABC)##(sa,#(ls,(,),z)))").result()
    );
}

#[test]
fn test_frmprim_es_prim() {
    assert_eq!(
        "OKOK",
        TestMint::new("#(ow,#(ds,zz,ABC)#(ds,zzz,ABC)#(es,zz)#(n?,zz,BAD,OK)#(n?,zzz,OK,BAD))")
            .result()
    );
    assert_eq!(
        "OKOK",
        TestMint::new("#(ow,#(ds,zz,ABC)#(ds,zzz,ABC)#(es,zz,zzz)#(n?,zz,BAD,OK)#(n?,zzz,BAD,OK))")
            .result()
    );
}

#[test]
fn test_frmprim_mp_prim() {
    let input = "#(ow,#(ds,test,(Test SELF,ARG1,ARG2,ARG3))#(mp,test,SELF,ARG1,ARG2,ARG3)##(test,A,B,C))";
    assert_eq!("Test test,A,B,C", TestMint::new(input).result());
}

#[test]
fn test_frmprim_hk_prim() {
    let input = "#(ow,#(ds,z1,OK)##(hk,aa,bb,cc,dd,z1))";
    assert_eq!(OK, TestMint::new(input).result());
}
