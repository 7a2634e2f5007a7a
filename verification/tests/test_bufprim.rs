//! The buffer primitives run from scripts.

use std::cell::RefCell;
use std::rc::Rc;

use freemacs::bufprim::register_buf_prims;
use freemacs::frmprim::register_frm_prims;
use freemacs::mint::{Mint, MintMachine, MintPrim, ScanStatus};
use freemacs::mint_arg::MintArgList;
use freemacs::mthprim::register_mth_prims;
use freemacs::strprim::register_str_prims;
use freemacs::sysprim::register_sys_prims;
use freemacs::varprim::register_var_prims;

struct OwPrim {
    output: Rc<RefCell<String>>,
}

impl OwPrim {
    fn new(output: Rc<RefCell<String>>) -> Self {
        OwPrim { output }
    }
}

impl MintPrim for OwPrim {
    fn execute(&self, interp: &mut MintMachine, is_active: bool, args: &MintArgList) {
        let mut output = self.output.borrow_mut();
        for i in 1..args.len() {
            output.extend(String::from_utf8(args.get(i).value().clone()).unwrap().chars());
        }
        interp.return_null(is_active);
    }
}

struct TestMint {
    interp: Mint,
    output: Rc<RefCell<String>>,
}

impl TestMint {
    fn new(script: &str) -> Self {
        let mut interp = Mint::with_initial_string(script.as_bytes());
        let output = Rc::new(RefCell::new(String::new()));
        let ow_prim = OwPrim::new(output.clone());
        interp.add_prim(b"ow".to_vec(), Box::new(ow_prim));

        register_buf_prims(&mut interp);
        register_frm_prims(&mut interp);
        register_mth_prims(&mut interp);
        register_str_prims(&mut interp);
        register_sys_prims(&mut interp, Vec::new(), Vec::new());
        register_var_prims(&mut interp);

        TestMint { interp, output }
    }

    /// Scans until the script has run out.
    fn result(&mut self) -> String {
        while self.interp.scan(false) == ScanStatus::Called && !self.interp.is_idle() {}
        self.output.borrow().clone()
    }
}
#[test]
fn ba_prim() {
    // The buffer that an interpreter starts with has the number 1.
    assert_eq!("1", TestMint::new("#(ow,#(ba,-1))").result());
    assert_eq!("2x3", TestMint::new("#(ow,#(ba)x#(ba,0))").result());
    assert_eq!(
        "2x1x1",
        TestMint::new("#(ow,#(ba)x#(ba,1)x#(ba,-1))").result()
    );
}
