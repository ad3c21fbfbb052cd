use atat::derive_cmd::{plan_cmd, CmdDeriveError, CmdField, Serialized};
use atat::derive_urc::{plan_urc, urc_problem, DigestWith, Dispatch, UrcArm, UrcProblem, UrcVariant, VariantShape};

fn arg(p: Option<usize>) -> CmdField {
    CmdField { arg_position: p, data_position: None }
}

fn data(p: usize) -> CmdField {
    CmdField { arg_position: None, data_position: Some(p) }
}

#[test]
fn unit_command_has_no_fields() {
    let plan = plan_cmd(&vec![], false, None).ok().unwrap();
    assert!(!plan.expects_prompt);
    assert_eq!(plan.n_fields, 0);
    assert!(plan.order.is_empty());
    assert_eq!(plan.payload_field, None);
}

#[test]
fn send_socket_data_plan() {
    // `connect_id` at position 0, `data` as data field at position 1.
    let plan = plan_cmd(&vec![arg(Some(0)), data(1)], false, None).ok().unwrap();
    assert!(plan.expects_prompt);
    assert_eq!(plan.n_fields, 2);
    assert_eq!(plan.order, vec![Serialized::Field(0), Serialized::DataLength(1)]);
    assert_eq!(plan.payload_field, Some(1));
}

#[test]
fn fields_sorted_stably_by_position() {
    let fields = vec![arg(None), arg(Some(2)), arg(Some(0)), arg(Some(2)), data(0), arg(None)];
    let plan = plan_cmd(&fields, false, Some(true)).ok().unwrap();
    assert_eq!(
        plan.order,
        vec![
            Serialized::Field(2),
            Serialized::DataLength(4),
            Serialized::Field(1),
            Serialized::Field(3),
            Serialized::Field(0),
            Serialized::Field(5),
        ]
    );
    assert_eq!(plan.n_fields, 6);
}

#[test]
fn explicit_prompt_without_data() {
    let plan = plan_cmd(&vec![arg(Some(0))], true, None).ok().unwrap();
    assert!(plan.expects_prompt);
    assert_eq!(plan.payload_field, None);
    assert_eq!(plan.order, vec![Serialized::Field(0)]);
}

#[test]
fn two_data_fields_rejected() {
    let r = plan_cmd(&vec![data(0), arg(Some(1)), data(2)], false, Some(false));
    assert_eq!(r.err(), Some(CmdDeriveError::MultipleDataFields));
}

#[test]
fn prompt_without_response_code_rejected() {
    assert_eq!(plan_cmd(&vec![data(0)], false, Some(false)).err(), Some(CmdDeriveError::PromptWithoutResponseCode));
    assert_eq!(plan_cmd(&vec![], true, Some(false)).err(), Some(CmdDeriveError::PromptWithoutResponseCode));
    assert!(plan_cmd(&vec![arg(None)], false, Some(false)).is_ok());
}

fn variant(shape: VariantShape, has_digest: bool, has_parse: bool) -> UrcVariant {
    UrcVariant { has_at_urc: true, shape, has_digest, has_parse }
}

#[test]
fn urc_plan_per_variant() {
    let vs = vec![
        variant(VariantShape::Unit, false, false),
        variant(VariantShape::Unnamed(1), true, true),
        variant(VariantShape::Unnamed(1), false, true),
    ];
    assert_eq!(urc_problem(&vs), None);
    assert_eq!(
        plan_urc(&vs),
        vec![
            UrcArm { dispatch: Dispatch::Unit, digest: DigestWith::DefaultHelper },
            UrcArm { dispatch: Dispatch::Parsed, digest: DigestWith::CustomDigest },
            UrcArm { dispatch: Dispatch::Parsed, digest: DigestWith::CustomParser },
        ]
    );
}

#[test]
fn urc_problems_in_order() {
    assert_eq!(urc_problem(&vec![]), Some(UrcProblem::NoVariants));
    let missing = UrcVariant { has_at_urc: false, shape: VariantShape::Named, has_digest: false, has_parse: false };
    assert_eq!(
        urc_problem(&vec![variant(VariantShape::Unit, false, false), missing]),
        Some(UrcProblem::MissingAttribute(1))
    );
    assert_eq!(urc_problem(&vec![variant(VariantShape::Named, false, false)]), Some(UrcProblem::NamedFields(0)));
    assert_eq!(urc_problem(&vec![variant(VariantShape::Unnamed(0), false, false)]), Some(UrcProblem::NoField(0)));
    assert_eq!(
        urc_problem(&vec![variant(VariantShape::Unit, false, false), variant(VariantShape::Unnamed(2), false, false)]),
        Some(UrcProblem::ExtraFields(1))
    );
    assert_eq!(urc_problem(&vec![variant(VariantShape::Unknown, false, false)]), Some(UrcProblem::UnknownFields(0)));
}
