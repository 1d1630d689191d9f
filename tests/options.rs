use signal_cli_client::error::RpcError;
use signal_cli_client::options::{
    GroupPermission, JsonLink, LinkState, MessageRequestResponseType, OutputTypes, ReceiptType,
};
use signal_cli_client::transport::frame_from_read;

#[test]
fn receipt_type_wire_names() {
    assert_eq!(ReceiptType::Read.wire_name(), "read");
    assert_eq!(ReceiptType::Viewed.wire_name(), "viewed");
}

#[test]
fn link_state_wire_names() {
    assert_eq!(LinkState::Enabled.wire_name(), "enabled");
    assert_eq!(LinkState::EnabledWithApproval.wire_name(), "enabledWithApproval");
    assert_eq!(LinkState::Disabled.wire_name(), "disabled");
}

#[test]
fn group_permission_wire_names() {
    assert_eq!(GroupPermission::EveryMember.wire_name(), "everyMember");
    assert_eq!(GroupPermission::OnlyAdmins.wire_name(), "onlyAdmins");
}

#[test]
fn message_request_response_wire_names() {
    assert_eq!(MessageRequestResponseType::Accept.wire_name(), "accept");
    assert_eq!(MessageRequestResponseType::Delete.wire_name(), "delete");
}

#[test]
fn output_types_and_link_are_plain_values() {
    assert_ne!(OutputTypes::Json, OutputTypes::PlainText);
    let link = JsonLink { device_link_uri: "sgnl://linkdevice?uuid=x".to_string() };
    assert_eq!(link.device_link_uri, "sgnl://linkdevice?uuid=x");
}

#[test]
fn read_end_of_stream_is_closed() {
    assert_eq!(frame_from_read(None), Err(RpcError::Closed));
}

#[test]
fn read_frame_is_passed_on() {
    assert_eq!(frame_from_read(Some(Ok("{}".to_string()))), Ok("{}".to_string()));
}

#[test]
fn read_failure_is_transport_error() {
    assert_eq!(
        frame_from_read(Some(Err("reset".to_string()))),
        Err(RpcError::Transport("reset".to_string()))
    );
}
