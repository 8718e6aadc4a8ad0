use vcal::ast::Base;
use vcal::system::{
    base_cast_name, check_format_controls, classify_system_call, is_supported_format_control,
    task_in_expression_error, MathFunctionKind, RealConversionKind, SystemCallKind, SystemFunction,
    SystemTask,
};

#[test]
fn math_names_round_trip() {
    let all = [
        MathFunctionKind::Clog2,
        MathFunctionKind::Ln,
        MathFunctionKind::Log10,
        MathFunctionKind::Exp,
        MathFunctionKind::Sqrt,
        MathFunctionKind::Floor,
        MathFunctionKind::Ceil,
        MathFunctionKind::Sin,
        MathFunctionKind::Cos,
        MathFunctionKind::Tan,
        MathFunctionKind::Asin,
        MathFunctionKind::Acos,
        MathFunctionKind::Atan,
        MathFunctionKind::Sinh,
        MathFunctionKind::Cosh,
        MathFunctionKind::Tanh,
        MathFunctionKind::Asinh,
        MathFunctionKind::Acosh,
        MathFunctionKind::Atanh,
        MathFunctionKind::Pow,
        MathFunctionKind::Atan2,
        MathFunctionKind::Hypot,
    ];
    for k in all {
        assert_eq!(MathFunctionKind::from_name(k.name()), Some(k));
    }
    assert_eq!(MathFunctionKind::from_name("$clog"), None);
    assert_eq!(MathFunctionKind::Hypot.name(), "$hypot");
}

#[test]
fn math_arity_and_result_type() {
    assert_eq!(MathFunctionKind::Pow.arity(), 2);
    assert_eq!(MathFunctionKind::Atan2.arity(), 2);
    assert_eq!(MathFunctionKind::Hypot.arity(), 2);
    assert_eq!(MathFunctionKind::Sqrt.arity(), 1);
    assert!(!MathFunctionKind::Clog2.is_real_result());
    assert!(MathFunctionKind::Ln.is_real_result());
}

#[test]
fn tasks_by_name_and_their_defaults() {
    assert_eq!(SystemTask::from_name("$displayh"), Some(SystemTask::DisplayH));
    assert_eq!(SystemTask::from_name("$print"), None);
    assert_eq!(SystemTask::Write.default_base(), Base::Decimal);
    assert_eq!(SystemTask::WriteB.default_base(), Base::Binary);
    assert_eq!(SystemTask::DisplayO.default_base(), Base::Octal);
    assert_eq!(SystemTask::DisplayH.default_base(), Base::Hex);
    assert_eq!(SystemTask::Finish.default_base(), Base::Decimal);
    assert!(SystemTask::Display.appends_newline());
    assert!(!SystemTask::Write.appends_newline());
    assert!(!SystemTask::Stop.appends_newline());
}

#[test]
fn classify_each_family() {
    assert_eq!(
        classify_system_call("$stop"),
        Ok(SystemCallKind::Task(SystemTask::Stop))
    );
    assert_eq!(
        classify_system_call("$unsigned"),
        Ok(SystemCallKind::Function(SystemFunction::SignCast { signed: false }))
    );
    assert_eq!(
        classify_system_call("$hex"),
        Ok(SystemCallKind::Function(SystemFunction::BaseCast(Base::Hex)))
    );
    assert_eq!(
        classify_system_call("$bitstoreal"),
        Ok(SystemCallKind::Function(SystemFunction::RealConversion(
            RealConversionKind::BitsToReal
        )))
    );
    assert_eq!(
        classify_system_call("$pow"),
        Ok(SystemCallKind::Function(SystemFunction::Math(MathFunctionKind::Pow)))
    );
    assert_eq!(
        classify_system_call("$nope"),
        Err("unknown system identifier: $nope".to_string())
    );
}

#[test]
fn task_used_as_value_message() {
    assert_eq!(
        task_in_expression_error("$finish"),
        "$finish() is a system task, it cannot be called as a function."
    );
}

#[test]
fn base_cast_names() {
    assert_eq!(base_cast_name(Base::Binary), "$bin");
    assert_eq!(base_cast_name(Base::Octal), "$oct");
    assert_eq!(base_cast_name(Base::Decimal), "$dec");
    assert_eq!(base_cast_name(Base::Hex), "$hex");
}

#[test]
fn format_controls_are_counted_against_arguments() {
    assert_eq!(check_format_controls(b"x=%d y=%h", 2), Ok(()));
    assert_eq!(check_format_controls(b"100%%", 0), Ok(()));
    assert_eq!(check_format_controls(b"plain", 0), Ok(()));
    assert_eq!(
        check_format_controls(b"value: %", 1),
        Err("display format control `%` is missing a specifier".to_string())
    );
    assert_eq!(
        check_format_controls(b"%d %d", 1),
        Err("display format %d expects an argument, got 1".to_string())
    );
    assert_eq!(
        check_format_controls(b"%z", 0),
        Err("display format %z expects an argument, got 0".to_string())
    );
    assert_eq!(
        check_format_controls(b"%q", 3),
        Err("unsupported display format control `%q`".to_string())
    );
}

#[test]
fn supported_controls() {
    for c in ['b', 'B', 'o', 'O', 'd', 'D', 'h', 'H', 'x', 'X', 'c', 'C', 's', 'S', 'f', 'F', 'e', 'E', 'g', 'G'] {
        assert!(is_supported_format_control(c));
    }
    assert!(!is_supported_format_control('t'));
    assert!(!is_supported_format_control('%'));
}
