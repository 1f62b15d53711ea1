//! Tests of the values data.

use evo_script_engine::compiled::{ConstantId};
use evo_script_engine::vm::{DynamicIntegerBackingId, DynamicIntegerBackingRef, EnumBackingId, StringBackingId, StringBackingRef, StructBackingId};

#[test]
    fn backing_ids_and_copy_semantics() {
        let s_id = StringBackingId(1);
        let s_copied = s_id;
        assert_eq!(s_id.0, 1);
        assert_eq!(s_copied.0, 1);

        let d_id = DynamicIntegerBackingId(2);
        let d_copied = d_id;
        assert_eq!(d_id.0, 2);
        assert_eq!(d_copied.0, 2);

        let st_id = StructBackingId(3);
        let st_copied = st_id;
        assert_eq!(st_id.0, 3);
        assert_eq!(st_copied.0, 3);

        let e_id = EnumBackingId(4);
        let e_copied = e_id;
        assert_eq!(e_id.0, 4);
        assert_eq!(e_copied.0, 4);
    }

#[test]
    fn backing_refs_variants_and_copy_semantics() {
        let s_ref_compiled = StringBackingRef::Compiled(ConstantId(10));
        let s_ref_compiled_copied = s_ref_compiled;
        match s_ref_compiled_copied {
            StringBackingRef::Compiled(cid) => assert_eq!(cid.0, 10),
            _ => panic!("expected Compiled"),
        }

        let s_ref_exec = StringBackingRef::Execution(StringBackingId(20));
        let s_ref_exec_copied = s_ref_exec;
        match s_ref_exec_copied {
            StringBackingRef::Execution(id) => assert_eq!(id.0, 20),
            _ => panic!("expected Execution"),
        }

        let d_ref_compiled = DynamicIntegerBackingRef::Compiled(ConstantId(30));
        let d_ref_compiled_copied = d_ref_compiled;
        match d_ref_compiled_copied {
            DynamicIntegerBackingRef::Compiled(cid) => assert_eq!(cid.0, 30),
            _ => panic!("expected Compiled"),
        }

        let d_ref_exec = DynamicIntegerBackingRef::Execution(DynamicIntegerBackingId(40));
        let d_ref_exec_copied = d_ref_exec;
        match d_ref_exec_copied {
            DynamicIntegerBackingRef::Execution(id) => assert_eq!(id.0, 40),
            _ => panic!("expected Execution"),
        }
    }
