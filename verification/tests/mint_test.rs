//! The interpreter run on small scripts, with an output primitive that
//! collects what is written.

use std::cell::RefCell;
use std::rc::Rc;

use freemacs::frmprim::register_frm_prims;
use freemacs::mint::{Mint, MintMachine, MintPrim, ScanStatus};
use freemacs::mint_arg::MintArgList;
use freemacs::mthprim::register_mth_prims;
use freemacs::strprim::register_str_prims;

const OK: &str = "OK";

struct OwPrim {
    output: Rc<RefCell<String>>,
}

impl OwPrim {
    fn new(output: Rc<RefCell<String>>) -> Self {
        OwPrim { output }
    }
}

impl MintPrim for OwPrim {
    fn execute(&self, interp: &mut MintMachine, is_active: bool, args: &MintArgList) {
        let mut output = self.output.borrow_mut();
        for i in 1..args.len() {
            output.extend(String::from_utf8(args.get(i).value().clone()).unwrap().chars());
        }
        interp.return_null(is_active);
    }
}

struct MintTest {
    interp: Mint,
    output: Rc<RefCell<String>>,
}

impl MintTest {
    fn new(script: &str) -> Self {
        let mut interp = Mint::with_initial_string(script.as_bytes());
        let output = Rc::new(RefCell::new(String::new()));
        let ow_prim = OwPrim::new(output.clone());
        interp.add_prim(b"ow".to_vec(), Box::new(ow_prim));
        register_mth_prims(&mut interp);
        register_str_prims(&mut interp);
        register_frm_prims(&mut interp);

        MintTest { interp, output }
    }

    /// Scans until the script has run out.
    fn result(&mut self) -> String {
        while self.interp.scan(false) == ScanStatus::Called && !self.interp.is_idle() {}
        self.output.borrow().clone()
    }
}

#[test]
fn ow_prim() {
    let mut test = MintTest::new("#(ow,OK)");
    assert_eq!(OK, test.result());
}

//
// The arithmetic primitives
//

#[test]
fn mint_test_bc_prim() {
    // Character to dec, oct, hex, bin
    assert_eq!("64", MintTest::new("#(ow,#(bc,@,a,d))").result());
    assert_eq!("64", MintTest::new("#(ow,#(bc,@,c,d))").result());
    assert_eq!("100", MintTest::new("#(ow,#(bc,@,c,o))").result());
    assert_eq!("40", MintTest::new("#(ow,#(bc,@,c,h))").result());
    assert_eq!("1000000", MintTest::new("#(ow,#(bc,@,c,b))").result());
    // Decimal to character, oct, hex, bin
    assert_eq!("A", MintTest::new("#(ow,#(bc,65,d,a))").result());
    assert_eq!("A", MintTest::new("#(ow,#(bc,65,d,c))").result());
    assert_eq!("101", MintTest::new("#(ow,#(bc,65,d,o))").result());
    assert_eq!("41", MintTest::new("#(ow,#(bc,65,d,h))").result());
    assert_eq!("1000001", MintTest::new("#(ow,#(bc,65,d,b))").result());
}

#[test]
fn mint_test_add_prim() {
    assert_eq!(
        "Prefix 15",
        MintTest::new("#(ow,##(++,(Prefix 12),3))").result()
    );
}

#[test]
fn mint_test_sub_prim() {
    assert_eq!(
        "Prefix 9",
        MintTest::new("#(ow,##(--,(Prefix 12),3))").result()
    );
}

#[test]
fn mint_test_mul_prim() {
    assert_eq!(
        "Prefix 36",
        MintTest::new("#(ow,##(**,(Prefix 12),3))").result()
    );
}

#[test]
fn mint_test_div_prim() {
    assert_eq!(
        "Prefix 4",
        MintTest::new("#(ow,##(//,(Prefix 12),3))").result()
    );
}

#[test]
fn mint_test_mod_prim() {
    assert_eq!(
        "Prefix 1",
        MintTest::new("#(ow,##(%%,(Prefix 13),3))").result()
    );
}

#[test]
fn mint_test_ior_prim() {
    assert_eq!(
        "Prefix 15",
        MintTest::new("#(ow,##(||,(Prefix 13),3))").result()
    );
}

#[test]
fn mint_test_and_prim() {
    assert_eq!(
        "Prefix 1",
        MintTest::new("#(ow,##(&&,(Prefix 13),3))").result()
    );
}

#[test]
fn mint_test_xor_prim() {
    assert_eq!(
        "Prefix 14",
        MintTest::new("#(ow,##(^^,(Prefix 13),3))").result()
    );
}

#[test]
fn mint_test_gt_prim() {
    assert_eq!(OK, MintTest::new("#(ow,#(g?,9,10,BAD,OK))").result());
}

//
// The string primitives
//

#[test]
fn mint_test_eq_prim() {
    // ==
    assert_eq!(OK, MintTest::new("#(ow,#(==,A,A,OK,BAD))").result());
    assert_eq!(OK, MintTest::new("#(ow,#(==,A,B,BAD,OK))").result());
}

#[test]
fn mint_test_ne_prim() {
    // !=
    assert_eq!(OK, MintTest::new("#(ow,#(!=,A,A,BAD,OK))").result());
    assert_eq!(OK, MintTest::new("#(ow,#(!=,A,B,OK,BAD))").result());
}

#[test]
fn mint_test_nc_prim() {
    assert_eq!("5", MintTest::new("#(ow,#(nc,hello))").result());
    assert_eq!("11", MintTest::new("#(ow,#(nc,hello hello))").result());
}

#[test]
fn mint_test_ao_prim() {
    assert_eq!(OK, MintTest::new("#(ow,#(a?,A,A,OK,BAD))").result());
    assert_eq!(OK, MintTest::new("#(ow,#(a?,A,B,OK,BAD))").result());
    assert_eq!(OK, MintTest::new("#(ow,#(a?,AA,A,BAD,OK))").result());
}

#[test]
fn mint_test_sa_prim() {
    assert_eq!(
        "b,c,m,n,v,x,z",
        MintTest::new("#(ow,##(sa,z,x,c,v,b,n,m))").result()
    );
}

#[test]
fn mint_test_si_prim() {
    let input = "#(ds,xlat,(z0123456789))#(ow,##(si,xlat,(A\x01\x02\x03\x04\x05\x06\x07\x08\x09\x0aZ)))";
    assert_eq!("A0123456789Z", MintTest::new(input).result());
}

#[test]
fn mint_test_nl_prim() {
    assert_eq!("\n", MintTest::new("#(ow,##(nl))").result());
}

//
// The form primitives
//

#[test]
fn mint_test_ds_prim() {
    assert_eq!(
        "Test string",
        MintTest::new("#(ds,zz,Test string)#(ow,#(zz))").result()
    );
    assert_eq!(
        "Test string",
        MintTest::new("#(ds,zz,Test string)#(ow,##(zz))").result()
    );
}

#[test]
fn mint_test_gs_prim() {
    assert_eq!(
        "Test string",
        MintTest::new("#(ds,zz,Test string)#(ow,#(gs,zz))").result()
    );
    assert_eq!(
        "Test string",
        MintTest::new("#(ds,zz,Test string)#(ow,##(gs,zz))").result()
    );
}

#[test]
fn mint_test_go_prim() {
    assert_eq!("", MintTest::new("#(ds,zz,AB)#(ow,##(go,zzz,OK))").result());
    assert_eq!("A", MintTest::new("#(ds,zz,AB)#(ow,#(go,zz,OK))").result());
    assert_eq!("A", MintTest::new("#(ds,zz,AB)#(ow,##(go,zz,OK))").result());
    assert_eq!(
        "ABOK",
        MintTest::new("#(ds,zz,AB)#(ow,##(go,zz,OK)##(go,zz,OK)##(go,zz,OK))").result()
    );
    assert_eq!(
        "AOKB",
        MintTest::new("#(ds,zz,AB)#(ow,##(go,zz,OK)OK##(gs,zz))").result()
    );
}

#[test]
fn mint_test_gn_prim() {
    // When fewer bytes are left than asked for, those are returned; at the
    // end of the form the third argument is returned in active mode.
    assert_eq!(
        "",
        MintTest::new("#(ds,zz,AB)#(ow,#(gn,zzz,1,BAD))").result()
    );
    assert_eq!(
        "A",
        MintTest::new("#(ds,zz,AB)#(ow,#(gn,zz,1,BAD))").result()
    );
    assert_eq!(
        "A",
        MintTest::new("#(ds,zz,AB)#(ow,##(gn,zz,1,BAD))").result()
    );
    assert_eq!(
        "ABOK",
        MintTest::new("#(ds,zz,AB)#(ow,##(gn,zz,2,BAD)##(gn,zz,2,OK))").result()
    );
    assert_eq!(
        "AOKB",
        MintTest::new("#(ds,zz,AB)#(ow,##(gn,zz,1,BAD)OK##(gs,zz))").result()
    );
}

#[test]
fn mint_test_rs_prim() {
    assert_eq!(
        "AAB",
        MintTest::new("#(ow,#(ds,zz,AB)#(go,zz,BAD)#(rs,zz)#(gs,zz,BAD))").result()
    );
}

#[test]
fn mint_test_fm_prim() {
    assert_eq!(
        "AC",
        MintTest::new("#(ow,#(ds,zz,ABC)#(fm,zz,B,BAD)#(gs,zz,BAD))").result()
    );
    assert_eq!(
        "",
        MintTest::new("#(ow,#(ds,zz,ABC)#(fm,zzz,B,BAD))").result()
    );
    assert_eq!(
        "OK",
        MintTest::new("#(ow,#(ds,zz,ABC)#(fm,zz,,OK))").result()
    );
    assert_eq!(
        "OK",
        MintTest::new("#(ow,#(ds,zz,ABC)#(fm,zz,D,OK))").result()
    );
}

#[test]
fn mint_test_nx_prim() {
    assert_eq!(
        "OK",
        MintTest::new("#(ow,#(ds,zz,ABC)#(n?,zz,OK,BAD))").result()
    );
    assert_eq!(
        "OK",
        MintTest::new("#(ow,#(ds,zz,ABC)#(n?,zzz,BAD,OK))").result()
    );
}

#[test]
fn mint_test_ls_prim() {
    assert_eq!(
        "z,zz,zzz",
        MintTest::new("#(ow,#(ds,z,ABC)#(ds,zz,ABC)#(ds,zzz,ABC)##(sa,#(ls,(,),z)))").result()
    );
}

#[test]
fn mint_test_es_prim() {
    assert_eq!(
        "OKOK",
        MintTest::new("#(ow,#(ds,zz,ABC)#(ds,zzz,ABC)#(es,zz)#(n?,zz,BAD,OK)#(n?,zzz,OK,BAD))")
            .result()
    );
    assert_eq!(
        "OKOK",
        MintTest::new("#(ow,#(ds,zz,ABC)#(ds,zzz,ABC)#(es,zz,zzz)#(n?,zz,BAD,OK)#(n?,zzz,BAD,OK))")
            .result()
    );
}

#[test]
fn mint_test_mp_prim() {
    let input = "#(ow,#(ds,test,(Test SELF,ARG1,ARG2,ARG3))#(mp,test,SELF,ARG1,ARG2,ARG3)##(test,A,B,C))";
    assert_eq!("Test test,A,B,C", MintTest::new(input).result());
}

#[test]
fn mint_test_hk_prim() {
    let input = "#(ow,#(ds,z1,OK)##(hk,aa,bb,cc,dd,z1))";
    assert_eq!(OK, MintTest::new(input).result());
}
