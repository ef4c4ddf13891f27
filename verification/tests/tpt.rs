//! Hardware targets and the structural hand-off validation of TPTIR.

use std::str::FromStr;

use augur::tpt::{select_hardware_target, validate_tptir, HardwareTarget, TptInteropError};

#[test]
fn lib_hardware_target_round_trips() {
    for t in HardwareTarget::supported().iter() {
        let parsed = HardwareTarget::from_str(t.as_str()).unwrap();
        assert_eq!(parsed, *t);
    }
    assert!(HardwareTarget::from_str("cuda").unwrap() == HardwareTarget::Nvidia);
    assert!(HardwareTarget::from_str("bogus").is_err());
}

#[test]
fn lib_select_defaults_to_cpu() {
    assert_eq!(select_hardware_target(None).unwrap(), HardwareTarget::Cpu);
    assert_eq!(select_hardware_target(Some("amd")).unwrap(), HardwareTarget::Amd);
}

#[test]
fn tpt_hardware_target_round_trips() {
    for t in HardwareTarget::supported().iter() {
        let parsed = HardwareTarget::from_str(t.as_str()).unwrap();
        assert_eq!(parsed, *t);
    }
    assert_eq!(HardwareTarget::from_str("cuda").unwrap(), HardwareTarget::Nvidia);
    assert_eq!(HardwareTarget::from_str("rocm").unwrap(), HardwareTarget::Amd);
    assert_eq!(HardwareTarget::from_str("metal").unwrap(), HardwareTarget::AppleSilicon);
    assert!(HardwareTarget::from_str("bogus").is_err());
}

#[test]
fn hardware_target_metadata() {
    assert_eq!(HardwareTarget::Cpu.as_str(), "cpu");
    assert_eq!(HardwareTarget::Nvidia.as_str(), "nvidia");
    assert_eq!(HardwareTarget::Cpu.tptc_target(), "text");
    assert_eq!(HardwareTarget::Nvidia.tptc_target(), "tptisa");
    assert!(HardwareTarget::Cpu.is_locally_measurable());
    assert!(!HardwareTarget::Nvidia.is_locally_measurable());
}

#[test]
fn tpt_select_defaults_to_cpu() {
    assert_eq!(select_hardware_target(None).unwrap(), HardwareTarget::Cpu);
    assert_eq!(select_hardware_target(Some("amd")).unwrap(), HardwareTarget::Amd);
    assert!(matches!(select_hardware_target(Some("nope")), Err(TptInteropError::UnknownHardware(_))));
}

#[test]
fn validate_tptir_accepts_well_formed_module() {
    let tptir = "module {\n  func.func @model() attributes {augur.hardware = \"cpu\"} {\n    ^entry:\n    \"augur.sample\"(%0) : (!augur.dist) -> f64\n    tptir.return\n  }\n}\n";
    assert!(validate_tptir(tptir).unwrap());
}

#[test]
fn validate_tptir_rejects_malformed_modules() {
    assert!(validate_tptir("not a module").is_err());
    assert!(validate_tptir("module { func.func @m() { ^entry: tptir.return } }").is_err());
}

#[test]
fn validation_message_lists_what_was_found() {
    let e = validate_tptir("module { func.func @m() { ^entry: tptir.return } }").unwrap_err();
    assert_eq!(e, "module=true func=true entry=true augur_op=false");
}

#[test]
fn hardware_names_are_normalised() {
    assert_eq!(HardwareTarget::from_str("Apple Silicon").unwrap(), HardwareTarget::AppleSilicon);
    assert_eq!(HardwareTarget::from_str("APPLE-SILICON").unwrap(), HardwareTarget::AppleSilicon);
    assert_eq!(HardwareTarget::from_str("Bad-Name"), Err(TptInteropError::UnknownHardware("bad_name".to_string())));
}

#[test]
fn validate_tptir_rejects_repeated_functions_and_entries() {
    let s = "module {\nfunc.func @a() {\n^entry:\n\"augur.x\"()\n}\nfunc.func @b() {\n^entry:\n}\n}";
    assert_eq!(
        validate_tptir(s),
        Err("module=true func=false entry=false augur_op=true".to_string())
    );
    let twice = "module {\nmodule {\nfunc.func @a() {\n^entry:\n\"augur.x\"()\n}\n}\n}";
    assert_eq!(
        validate_tptir(twice),
        Err("module=false func=true entry=true augur_op=true".to_string())
    );
}
