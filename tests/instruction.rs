use nicompiler_backend::error::ConstructionError;
use nicompiler_backend::instruction::{check_args, InstrType};

fn names(keys: &[&str]) -> Vec<String> {
    keys.iter().map(|k| k.to_string()).collect()
}

#[test]
fn type_names() {
    assert_eq!(InstrType::CONST.name(), "CONST");
    assert_eq!(InstrType::SINE.name(), "SINE");
    assert_eq!(InstrType::LINRAMP.name(), "LINRAMP");
}

#[test]
fn required_args_per_type() {
    assert_eq!(InstrType::CONST.required_args(), vec!["value"]);
    assert_eq!(InstrType::SINE.required_args(), vec!["freq"]);
    assert_eq!(
        InstrType::LINRAMP.required_args(),
        vec!["start_val", "end_val", "start_time", "end_time"]
    );
}

#[test]
fn const_without_value_is_missing_argument() {
    assert_eq!(
        check_args(InstrType::CONST, &vec![]),
        Err(ConstructionError::MissingArgument {
            instr_type: InstrType::CONST,
            key: "value".to_string()
        })
    );
    assert_eq!(check_args(InstrType::CONST, &names(&["value"])), Ok(()));
}

#[test]
fn sine_needs_only_freq() {
    assert_eq!(check_args(InstrType::SINE, &names(&["offset", "freq"])), Ok(()));
    assert_eq!(
        check_args(InstrType::SINE, &names(&["amplitude", "phase", "offset"])),
        Err(ConstructionError::MissingArgument {
            instr_type: InstrType::SINE,
            key: "freq".to_string()
        })
    );
}

#[test]
fn linramp_reports_first_missing_key() {
    assert_eq!(
        check_args(InstrType::LINRAMP, &names(&["start_val", "start_time"])),
        Err(ConstructionError::MissingArgument {
            instr_type: InstrType::LINRAMP,
            key: "end_val".to_string()
        })
    );
    assert_eq!(
        check_args(InstrType::LINRAMP, &names(&["end_time", "start_time", "end_val", "start_val"])),
        Ok(())
    );
}
