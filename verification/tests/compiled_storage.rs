//! Tests of the storage data.

use evo_script_engine::compiled::{CompiledValueShapeId, ExternalSymbol};
use evo_script_engine::semantic::{SignatureSymbol};

#[test]
    fn external_symbol_fields() {
        let ext = ExternalSymbol {
            symbol: SignatureSymbol {
                module: "Math".to_string(),
                name: "Add".to_string(),
            },
            parameter_count: 2,
            result_shape: CompiledValueShapeId(0),
        };

        assert_eq!(ext.symbol.module, "Math");
        assert_eq!(ext.symbol.name, "Add");
        assert_eq!(ext.parameter_count, 2);
        assert_eq!(ext.result_shape.0, 0);
    }
