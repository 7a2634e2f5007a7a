//! The arithmetic and string primitives run from scripts, with every family of
//! primitives registered.

use std::cell::RefCell;
use std::rc::Rc;

use freemacs::bufprim::register_buf_prims;
use freemacs::frmprim::register_frm_prims;
use freemacs::mint::{Mint, MintMachine, MintPrim, ScanStatus};
use freemacs::mint_arg::MintArgList;
use freemacs::mthprim::register_mth_prims;
use freemacs::strprim::register_str_prims;
use freemacs::sysprim::register_sys_prims;
use freemacs::varprim::register_var_prims;

struct OwPrim {
    output: Rc<RefCell<String>>,
}

impl OwPrim {
    fn new(output: Rc<RefCell<String>>) -> Self {
        OwPrim { output }
    }
}

impl MintPrim for OwPrim {
    fn execute(&self, interp: &mut MintMachine, is_active: bool, args: &MintArgList) {
        let mut output = self.output.borrow_mut();
        for i in 1..args.len() {
            output.extend(String::from_utf8(args.get(i).value().clone()).unwrap().chars());
        }
        interp.return_null(is_active);
    }
}

struct TestMint {
    interp: Mint,
    output: Rc<RefCell<String>>,
}

impl TestMint {
    fn new(script: &str) -> Self {
        let mut interp = Mint::with_initial_string(script.as_bytes());
        let output = Rc::new(RefCell::new(String::new()));
        let ow_prim = OwPrim::new(output.clone());
        interp.add_prim(b"ow".to_vec(), Box::new(ow_prim));

        register_buf_prims(&mut interp);
        register_frm_prims(&mut interp);
        register_mth_prims(&mut interp);
        register_str_prims(&mut interp);
        register_sys_prims(&mut interp, Vec::new(), Vec::new());
        register_var_prims(&mut interp);

        TestMint { interp, output }
    }

    /// Scans until the script has run out.
    fn result(&mut self) -> String {
        while self.interp.scan(false) == ScanStatus::Called && !self.interp.is_idle() {}
        self.output.borrow().clone()
    }
}
const OK: &str = "OK";

#[test]
fn test_mthprim_bc_prim() {
    // Character to dec, oct, hex, bin
    assert_eq!("64", TestMint::new("#(ow,#(bc,@,a,d))").result());
    assert_eq!("64", TestMint::new("#(ow,#(bc,@,c,d))").result());
    assert_eq!("100", TestMint::new("#(ow,#(bc,@,c,o))").result());
    assert_eq!("40", TestMint::new("#(ow,#(bc,@,c,h))").result());
    assert_eq!("1000000", TestMint::new("#(ow,#(bc,@,c,b))").result());
    // Decimal to character, oct, hex, bin
    assert_eq!("A", TestMint::new("#(ow,#(bc,65,d,a))").result());
    assert_eq!("A", TestMint::new("#(ow,#(bc,65,d,c))").result());
    assert_eq!("101", TestMint::new("#(ow,#(bc,65,d,o))").result());
    assert_eq!("41", TestMint::new("#(ow,#(bc,65,d,h))").result());
    assert_eq!("1000001", TestMint::new("#(ow,#(bc,65,d,b))").result());
}

#[test]
fn test_mthprim_add_prim() {
    assert_eq!(
        "Prefix 15",
        TestMint::new("#(ow,##(++,(Prefix 12),3))").result()
    );
}

#[test]
fn test_mthprim_sub_prim() {
    assert_eq!(
        "Prefix 9",
        TestMint::new("#(ow,##(--,(Prefix 12),3))").result()
    );
}

#[test]
fn test_mthprim_mul_prim() {
    assert_eq!(
        "Prefix 36",
        TestMint::new("#(ow,##(**,(Prefix 12),3))").result()
    );
}

#[test]
fn test_mthprim_div_prim() {
    assert_eq!(
        "Prefix 4",
        TestMint::new("#(ow,##(//,(Prefix 12),3))").result()
    );
}

#[test]
fn test_mthprim_mod_prim() {
    assert_eq!(
        "Prefix 1",
        TestMint::new("#(ow,##(%%,(Prefix 13),3))").result()
    );
}

#[test]
fn test_mthprim_ior_prim() {
    assert_eq!(
        "Prefix 15",
        TestMint::new("#(ow,##(||,(Prefix 13),3))").result()
    );
}

#[test]
fn test_mthprim_and_prim() {
    assert_eq!(
        "Prefix 1",
        TestMint::new("#(ow,##(&&,(Prefix 13),3))").result()
    );
}

#[test]
fn test_mthprim_xor_prim() {
    assert_eq!(
        "Prefix 14",
        TestMint::new("#(ow,##(^^,(Prefix 13),3))").result()
    );
}

#[test]
fn test_mthprim_gt_prim() {
    assert_eq!(OK, TestMint::new("#(ow,#(g?,9,10,BAD,OK))").result());
}

#[test]
fn test_mthprim_eq_prim() {
    // ==
    assert_eq!(OK, TestMint::new("#(ow,#(==,A,A,OK,BAD))").result());
    assert_eq!(OK, TestMint::new("#(ow,#(==,A,B,BAD,OK))").result());
}

#[test]
fn test_mthprim_ne_prim() {
    // !=
    assert_eq!(OK, TestMint::new("#(ow,#(!=,A,A,BAD,OK))").result());
    assert_eq!(OK, TestMint::new("#(ow,#(!=,A,B,OK,BAD))").result());
}

#[test]
fn test_mthprim_nc_prim() {
    assert_eq!("5", TestMint::new("#(ow,#(nc,hello))").result());
    assert_eq!("11", TestMint::new("#(ow,#(nc,hello hello))").result());
}

#[test]
fn test_mthprim_ao_prim() {
    assert_eq!(OK, TestMint::new("#(ow,#(a?,A,A,OK,BAD))").result());
    assert_eq!(OK, TestMint::new("#(ow,#(a?,A,B,OK,BAD))").result());
    assert_eq!(OK, TestMint::new("#(ow,#(a?,AA,A,BAD,OK))").result());
}

#[test]
fn test_mthprim_sa_prim() {
    assert_eq!(
        "b,c,m,n,v,x,z",
        TestMint::new("#(ow,##(sa,z,x,c,v,b,n,m))").result()
    );
}

#[test]
fn test_mthprim_si_prim() {
    let input = "#(ds,xlat,(z0123456789))#(ow,##(si,xlat,(A\x01\x02\x03\x04\x05\x06\x07\x08\x09\x0aZ)))";
    assert_eq!("A0123456789Z", TestMint::new(input).result());
}

#[test]
fn test_mthprim_nl_prim() {
    assert_eq!("\n", TestMint::new("#(ow,##(nl))").result());
}
