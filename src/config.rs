//! Start-up settings: the endpoint descriptors and the log filter.

use vstd::prelude::*;
use vstd::string::StringSliceAdditionalSpecFns;

verus! {

#[verifier::external_type_specification]
#[verifier::external_body]
pub struct ExIni(ini::Ini);

/// What a configuration holds: for each named section and key, the first
/// value of that key in the first section of that name.
pub uninterp spec fn ini_settings(c: ini::Ini) -> Map<(Seq<char>, Seq<char>), Seq<char>>;

/// Relies on `ini::Ini::get_from`: the first value of `key` in the first
/// section named `section`, if there is one; the lookup is exact, not
/// case-folded.
#[verifier::external_body]
fn setting(config: &ini::Ini, section: &str, key: &str) -> (r: Option<String>)
    ensures
        r.is_some() == ini_settings(*config).contains_key((section@, key@)),
        r matches Some(v) ==> v@ == ini_settings(*config)[(section@, key@)],
{
    config.get_from(Some(section), key).map(|v| v.to_owned())
}

/// The log filter used when the configuration names none.
pub const DEFAULT_LOG_LEVEL: &'static str = "myscontroller_rs=info,actix_web=info";

/// The log filter: the configured one, or else `DEFAULT_LOG_LEVEL`.
pub fn log_level_or_default(configured: Option<String>) -> (r: String)
    ensures
        match configured {
            Some(v) => r@ == v@,
            None => r@ == DEFAULT_LOG_LEVEL@,
        },
{
    match configured {
        Some(v) => v,
        None => DEFAULT_LOG_LEVEL.to_owned(),
    }
}

/// The section and key that hold the log filter.
pub open spec fn log_level_setting() -> (Seq<char>, Seq<char>) {
    ("Server"@, "log_level"@)
}

/// The log filter that `config` sets under `[Server] log_level`, or else
/// `DEFAULT_LOG_LEVEL`.
pub fn log_level(config: &ini::Ini) -> (r: String)
    ensures
        ini_settings(*config).contains_key(log_level_setting()) ==> r@ == ini_settings(
            *config,
        )[log_level_setting()],
        !ini_settings(*config).contains_key(log_level_setting()) ==> r@ == DEFAULT_LOG_LEVEL@,
{
    proof {
        reveal_strlit("Server");
        reveal_strlit("log_level");
    }
    log_level_or_default(setting(config, "Server", "log_level"))
}

#[derive(Clone, Copy, Debug, PartialEq, Eq, Structural)]
pub enum ConnectionType {
    Serial,
    Tcp,
}

pub open spec fn serial_name() -> Seq<u8> {
    seq![0x53u8, 0x45, 0x52, 0x49, 0x41, 0x4c]
}

pub open spec fn tcp_name() -> Seq<u8> {
    seq![0x54u8, 0x43, 0x50]
}

impl ConnectionType {
    /// The transport that a setting names: `SERIAL` or `TCP`.
    pub fn from_name(name: &str) -> (r: Option<ConnectionType>)
        ensures
            name.spec_bytes() == serial_name() ==> r == Some(ConnectionType::Serial),
            name.spec_bytes() == tcp_name() ==> r == Some(ConnectionType::Tcp),
            name.spec_bytes() != serial_name() && name.spec_bytes() != tcp_name() ==> r is None,
    {
        let b = name.as_bytes();
        if b.len() == 6 && b[0] == 0x53 && b[1] == 0x45 && b[2] == 0x52 && b[3] == 0x49 && b[4]
            == 0x41 && b[5] == 0x4c {
            assert(b@ =~= serial_name());
            Some(ConnectionType::Serial)
        } else if b.len() == 3 && b[0] == 0x54 && b[1] == 0x43 && b[2] == 0x50 {
            assert(b@ =~= tcp_name());
            Some(ConnectionType::Tcp)
        } else {
            proof {
                if b@ == serial_name() {
                    assert(b@[0] == 0x53);
                }
                if b@ == tcp_name() {
                    assert(b@[0] == 0x54);
                }
            }
            None
        }
    }
}

/// One endpoint: where it is and over what transport.
#[derive(Clone, Debug)]
pub struct StreamInfo {
    pub port: String,
    pub connection_type: ConnectionType,
}

} // verus!
