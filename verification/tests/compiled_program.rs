//! Tests of the program data.

use evo_script_engine::compiled::{CompiledFunction, ConstantId, Instruction};

#[test]
    fn compiled_function_fields() {
        let func = CompiledFunction {
            parameter_count: 2,
            local_count: 3,
            max_operand_depth: 4,
            instructions: vec![
                Instruction::LoadConstant(ConstantId(0)),
                Instruction::Return,
            ],
        };

        assert_eq!(func.parameter_count, 2);
        assert_eq!(func.local_count, 3);
        assert_eq!(func.max_operand_depth, 4);
        assert_eq!(func.instructions.len(), 2);
    }
