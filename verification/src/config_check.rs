//! The checks a configuration must pass before the node starts: SAM and
//! API ports, the SAM session name, timeouts and stream limits. Whether a
//! host parses as an IP address is found out by the caller.

use vstd::prelude::*;
use crate::kad::keyword::{char_is_whitespace, is_whitespace};
use crate::text::{decimal, decimal_string, str_chars};

verus! {

/// The configuration values the checks read.
#[derive(Debug, Clone)]
pub struct SamApiSettings {
    pub sam_host: String,
    /// Whether `sam_host` parses as an IP address.
    pub sam_host_is_ip: bool,
    pub sam_port: u16,
    /// Whether datagrams come through a UDP forward.
    pub udp_forward: bool,
    pub sam_udp_port: u16,
    pub session_name: String,
    pub forward_host: String,
    /// Whether `forward_host` parses as an IP address.
    pub forward_host_is_ip: bool,
    pub control_timeout_secs: u64,
    pub max_concurrent_transfer_streams: usize,
    pub api_port: u16,
}

/// Why a configuration is refused, with the offending value.
#[derive(Debug, Clone, PartialEq, Eq)]
pub enum ConfigValidationError {
    InvalidSamHost(String),
    InvalidSamPort(u16),
    InvalidSamUdpPort(u16),
    InvalidSessionName(String),
    InvalidForwardHost(String),
    InvalidControlTimeout(u64),
    InvalidMaxConcurrentTransferStreams(usize),
    InvalidApiPort(u16),
}

/// Which check refuses a configuration.
#[derive(Debug, Clone, Copy, PartialEq, Eq, Structural)]
pub enum ConfigFault {
    SamHost,
    SamPort,
    SamUdpPort,
    SessionName,
    ForwardHost,
    ControlTimeout,
    MaxConcurrentTransferStreams,
    ApiPort,
}

/// Whether every character is whitespace (so the text trims to nothing).
pub open spec fn blank(s: Seq<char>) -> bool {
    forall|i: int| 0 <= i < s.len() ==> char_is_whitespace(#[trigger] s[i])
}

/// The first check that refuses `s`, in the order they are made; none when
/// all pass. A port must lie in 1..=65535, the UDP port and forward host
/// count only with a UDP forward.
pub open spec fn first_fault(s: SamApiSettings) -> Option<ConfigFault> {
    if !s.sam_host_is_ip {
        Some(ConfigFault::SamHost)
    } else if s.sam_port == 0 {
        Some(ConfigFault::SamPort)
    } else if s.udp_forward && s.sam_udp_port == 0 {
        Some(ConfigFault::SamUdpPort)
    } else if blank(s.session_name@) {
        Some(ConfigFault::SessionName)
    } else if s.udp_forward && !s.forward_host_is_ip {
        Some(ConfigFault::ForwardHost)
    } else if s.control_timeout_secs == 0 {
        Some(ConfigFault::ControlTimeout)
    } else if s.max_concurrent_transfer_streams == 0 {
        Some(ConfigFault::MaxConcurrentTransferStreams)
    } else if s.api_port == 0 {
        Some(ConfigFault::ApiPort)
    } else {
        None
    }
}

/// The error `e` reports fault `f` of `s`, with its value.
pub open spec fn reports(e: ConfigValidationError, f: ConfigFault, s: SamApiSettings) -> bool {
    match f {
        ConfigFault::SamHost => e is InvalidSamHost && e->InvalidSamHost_0@ == s.sam_host@,
        ConfigFault::SamPort => e == ConfigValidationError::InvalidSamPort(s.sam_port),
        ConfigFault::SamUdpPort => e == ConfigValidationError::InvalidSamUdpPort(s.sam_udp_port),
        ConfigFault::SessionName => e is InvalidSessionName && e->InvalidSessionName_0@ == s.session_name@,
        ConfigFault::ForwardHost => e is InvalidForwardHost && e->InvalidForwardHost_0@ == s.forward_host@,
        ConfigFault::ControlTimeout => e == ConfigValidationError::InvalidControlTimeout(s.control_timeout_secs),
        ConfigFault::MaxConcurrentTransferStreams =>
            e == ConfigValidationError::InvalidMaxConcurrentTransferStreams(s.max_concurrent_transfer_streams),
        ConfigFault::ApiPort => e == ConfigValidationError::InvalidApiPort(s.api_port),
    }
}

fn is_blank(s: &str) -> (r: bool)
    ensures
        r == blank(s@),
{
    let cs = str_chars(s);
    let mut i: usize = 0;
    while i < cs.len()
        invariant
            i <= cs@.len(),
            cs@ == s@,
            forall|k: int| 0 <= k < i ==> char_is_whitespace(#[trigger] s@[k]),
        decreases cs@.len() - i,
    {
        if !is_whitespace(cs[i]) {
            return false;
        }
        i += 1;
    }
    true
}

/// Checks the settings; the first failing check gives the error.
pub fn validate_settings(s: &SamApiSettings) -> (r: Result<(), ConfigValidationError>)
    ensures
        match first_fault(*s) {
            None => r is Ok,
            Some(f) => r is Err && reports(r->Err_0, f, *s),
        },
{
    if !s.sam_host_is_ip {
        return Err(ConfigValidationError::InvalidSamHost(s.sam_host.clone()));
    }
    if s.sam_port == 0 {
        return Err(ConfigValidationError::InvalidSamPort(s.sam_port));
    }
    if s.udp_forward && s.sam_udp_port == 0 {
        return Err(ConfigValidationError::InvalidSamUdpPort(s.sam_udp_port));
    }
    if is_blank(s.session_name.as_str()) {
        return Err(ConfigValidationError::InvalidSessionName(s.session_name.clone()));
    }
    if s.udp_forward && !s.forward_host_is_ip {
        return Err(ConfigValidationError::InvalidForwardHost(s.forward_host.clone()));
    }
    if s.control_timeout_secs == 0 {
        return Err(ConfigValidationError::InvalidControlTimeout(s.control_timeout_secs));
    }
    if s.max_concurrent_transfer_streams == 0 {
        return Err(ConfigValidationError::InvalidMaxConcurrentTransferStreams(s.max_concurrent_transfer_streams));
    }
    if s.api_port == 0 {
        return Err(ConfigValidationError::InvalidApiPort(s.api_port));
    }
    Ok(())
}

impl ConfigValidationError {
    pub open spec fn message_spec(&self) -> Seq<char> {
        match *self {
            ConfigValidationError::InvalidSamHost(h) => "Invalid sam.host '"@ + h@ + "'"@,
            ConfigValidationError::InvalidSamPort(p) => "Invalid sam.port '"@ + decimal(p as nat) + "'"@,
            ConfigValidationError::InvalidSamUdpPort(p) => "Invalid sam.udp_port '"@ + decimal(p as nat) + "'"@,
            ConfigValidationError::InvalidSessionName(n) => "Invalid sam.session_name '"@ + n@ + "'"@,
            ConfigValidationError::InvalidForwardHost(h) => "Invalid sam.forward_host '"@ + h@ + "'"@,
            ConfigValidationError::InvalidControlTimeout(v) => "Invalid sam.control_timeout_secs '"@ + decimal(v as nat)
                + "'"@,
            ConfigValidationError::InvalidMaxConcurrentTransferStreams(v) =>
                "Invalid sam.max_concurrent_transfer_streams '"@ + decimal(v as nat) + "'"@,
            ConfigValidationError::InvalidApiPort(p) => "Invalid api.port '"@ + decimal(p as nat) + "'"@,
        }
    }

    /// The message shown for the error.
    pub fn to_string(&self) -> (s: String)
        ensures
            s@ == self.message_spec(),
    {
        let mut s: String;
        match self {
            ConfigValidationError::InvalidSamHost(h) => {
                s = String::from_str("Invalid sam.host '");
                s.append(h.as_str());
            },
            ConfigValidationError::InvalidSamPort(p) => {
                s = String::from_str("Invalid sam.port '");
                s.append(decimal_string(*p as u64).as_str());
            },
            ConfigValidationError::InvalidSamUdpPort(p) => {
                s = String::from_str("Invalid sam.udp_port '");
                s.append(decimal_string(*p as u64).as_str());
            },
            ConfigValidationError::InvalidSessionName(n) => {
                s = String::from_str("Invalid sam.session_name '");
                s.append(n.as_str());
            },
            ConfigValidationError::InvalidForwardHost(h) => {
                s = String::from_str("Invalid sam.forward_host '");
                s.append(h.as_str());
            },
            ConfigValidationError::InvalidControlTimeout(v) => {
                s = String::from_str("Invalid sam.control_timeout_secs '");
                s.append(decimal_string(*v).as_str());
            },
            ConfigValidationError::InvalidMaxConcurrentTransferStreams(v) => {
                s = String::from_str("Invalid sam.max_concurrent_transfer_streams '");
                s.append(decimal_string(*v as u64).as_str());
            },
            ConfigValidationError::InvalidApiPort(p) => {
                s = String::from_str("Invalid api.port '");
                s.append(decimal_string(*p as u64).as_str());
            },
        }
        s.append("'");
        s
    }
}

} // verus!
