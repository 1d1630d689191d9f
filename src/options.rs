//! Values that a command line chooses among, and the names the daemon's
//! methods take them by.
use vstd::prelude::*;

verus! {

/// How results are printed.
#[derive(Debug, Clone, Copy, PartialEq, Eq, Structural)]
pub enum OutputTypes {
    PlainText,
    Json,
}

/// Which receipt to send for a message.
#[derive(Debug, Clone, Copy, PartialEq, Eq, Structural)]
pub enum ReceiptType {
    Read,
    Viewed,
}

impl ReceiptType {
    /// The name the daemon takes the receipt type by.
    pub fn wire_name(&self) -> (r: &'static str)
        ensures
            *self == ReceiptType::Read ==> r@ == "read"@,
            *self == ReceiptType::Viewed ==> r@ == "viewed"@,
    {
        match self {
            ReceiptType::Read => "read",
            ReceiptType::Viewed => "viewed",
        }
    }
}

/// Whether a group can be joined through its link.
#[derive(Debug, Clone, Copy, PartialEq, Eq, Structural)]
pub enum LinkState {
    Enabled,
    EnabledWithApproval,
    Disabled,
}

impl LinkState {
    /// The name the daemon takes the link state by.
    pub fn wire_name(&self) -> (r: &'static str)
        ensures
            *self == LinkState::Enabled ==> r@ == "enabled"@,
            *self == LinkState::EnabledWithApproval ==> r@ == "enabledWithApproval"@,
            *self == LinkState::Disabled ==> r@ == "disabled"@,
    {
        match self {
            LinkState::Enabled => "enabled",
            LinkState::EnabledWithApproval => "enabledWithApproval",
            LinkState::Disabled => "disabled",
        }
    }
}

/// Who may do a thing in a group.
#[derive(Debug, Clone, Copy, PartialEq, Eq, Structural)]
pub enum GroupPermission {
    EveryMember,
    OnlyAdmins,
}

impl GroupPermission {
    /// The name the daemon takes the permission by.
    pub fn wire_name(&self) -> (r: &'static str)
        ensures
            *self == GroupPermission::EveryMember ==> r@ == "everyMember"@,
            *self == GroupPermission::OnlyAdmins ==> r@ == "onlyAdmins"@,
    {
        match self {
            GroupPermission::EveryMember => "everyMember",
            GroupPermission::OnlyAdmins => "onlyAdmins",
        }
    }
}

/// How to answer a message request.
#[derive(Debug, Clone, Copy, PartialEq, Eq, Structural)]
pub enum MessageRequestResponseType {
    Accept,
    Delete,
}

impl MessageRequestResponseType {
    /// The name the daemon takes the answer by.
    pub fn wire_name(&self) -> (r: &'static str)
        ensures
            *self == MessageRequestResponseType::Accept ==> r@ == "accept"@,
            *self == MessageRequestResponseType::Delete ==> r@ == "delete"@,
    {
        match self {
            MessageRequestResponseType::Accept => "accept",
            MessageRequestResponseType::Delete => "delete",
        }
    }
}

/// The answer of `startLink`: the URI a new device is linked with.
#[derive(Debug, Clone)]
pub struct JsonLink {
    pub device_link_uri: String,
}

} // verus!
