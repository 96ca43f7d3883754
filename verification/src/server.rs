//! The rendezvous server's own decisions: its settings, the paging of the
//! user list, the answer to a login request, and its web errors.

use vstd::prelude::*;
use vstd::string::*;
use crate::chat_protocol::ChatCommand;
use crate::protocol_factory::HandleProtocolData;

verus! {

/// Rows on a page of the user list when the request names no size.
pub const PAGE_SIZE: u64 = 5;

/// The paging that a request for the user list asks for.
pub struct PageParams {
    pub page_index: Option<u64>,
    pub page_size: Option<u64>,
}

impl PageParams {
    /// The page asked for; the first page when none is named.
    pub fn page_index_or_default(&self) -> (r: u64)
        ensures
            r == match self.page_index {
                Some(p) => p,
                None => 1,
            },
    {
        match self.page_index {
            Some(p) => p,
            None => 1,
        }
    }

    /// The page size asked for; `PAGE_SIZE` when none is named.
    pub fn page_size_or_default(&self) -> (r: u64)
        ensures
            r == match self.page_size {
                Some(s) => s,
                None => PAGE_SIZE,
            },
    {
        match self.page_size {
            Some(s) => s,
            None => PAGE_SIZE,
        }
    }
}

/// Where the server listens for the clients' connections.
pub struct TcpSocketConfig {
    pub tcp_host: String,
    pub tcp_port: String,
}

impl TcpSocketConfig {
    /// A socket configuration made of a host and a port.
    pub fn new(tcp_host: String, tcp_port: String) -> (r: Self)
        ensures
            r.tcp_host == tcp_host,
            r.tcp_port == tcp_port,
    {
        TcpSocketConfig { tcp_host, tcp_port }
    }

    /// The address to listen on: `host:port`.
    pub fn get_url(&self) -> (r: String)
        ensures
            r@ == self.tcp_host@ + ":"@ + self.tcp_port@,
    {
        let mut url = self.tcp_host.clone();
        url.append(":");
        url.append(self.tcp_port.as_str());
        url
    }
}

/// The server's settings: its socket, its web front and its database.
pub struct ServerEnvConfig {
    pub socket_config: TcpSocketConfig,
    pub web_host: String,
    pub web_port: String,
    pub database_url: String,
}

impl ServerEnvConfig {
    /// Server settings made of the given values.
    pub fn new(
        tcp_host: String,
        tcp_port: String,
        web_host: String,
        web_port: String,
        database_url: String,
    ) -> (r: Self)
        ensures
            r.socket_config.tcp_host == tcp_host,
            r.socket_config.tcp_port == tcp_port,
            r.web_host == web_host,
            r.web_port == web_port,
            r.database_url == database_url,
    {
        ServerEnvConfig {
            socket_config: TcpSocketConfig::new(tcp_host, tcp_port),
            web_host,
            web_port,
            database_url,
        }
    }

    /// The address of the web front: `host:port`.
    pub fn web_url(&self) -> (r: String)
        ensures
            r@ == self.web_host@ + ":"@ + self.web_port@,
    {
        let mut url = self.web_host.clone();
        url.append(":");
        url.append(self.web_port.as_str());
        url
    }
}

/// A registered user.
#[derive(Debug)]
pub struct UserInfoModel {
    pub id: i32,
    pub name: String,
    pub pwd: String,
}

/// The answer to a request: which answer it is, whether the request
/// succeeded, what it found, and why it failed.
#[derive(Debug)]
pub struct BusinessResult {
    pub biz_type: ChatCommand,
    pub flg: bool,
    pub result: Option<Option<UserInfoModel>>,
    pub err: Option<String>,
}

/// The answer to a login request, from the outcome of looking the account
/// up: the user found (if any), or the reason the lookup failed.
pub fn login_response(find_result: Result<Option<UserInfoModel>, String>) -> (r: BusinessResult)
    ensures
        r.biz_type == ChatCommand::LoginResp,
        match find_result {
            Ok(t) => r.flg && r.result == Some(t) && r.err is None,
            Err(e) => !r.flg && r.result is None && r.err == Some(e),
        },
{
    match find_result {
        Ok(t) => BusinessResult {
            biz_type: ChatCommand::LoginResp,
            flg: true,
            result: Some(t),
            err: None,
        },
        Err(e) => BusinessResult {
            biz_type: ChatCommand::LoginResp,
            flg: false,
            result: None,
            err: Some(e),
        },
    }
}

/// Takes in login requests on the server side without a database; it answers nothing.
pub struct ServerLoginReqHandler {}

impl HandleProtocolData for ServerLoginReqHandler {
    fn handle(&self, a: &Vec<u8>) -> (r: Option<Vec<u8>>)
        ensures
            r is None,
    {
        None
    }
}

/// The errors of the web front.
#[derive(Debug)]
pub enum MyError {
    InternalError,
    BadClientData,
    Timeout,
    ValidationError { field: String },
}

impl MyError {
    /// The HTTP status that answers this error.
    pub fn status_code(&self) -> (r: u16)
        ensures
            r == match self {
                MyError::InternalError => 500u16,
                MyError::BadClientData => 400u16,
                MyError::Timeout => 504u16,
                MyError::ValidationError { .. } => 400u16,
            },
    {
        match self {
            MyError::InternalError => 500,
            MyError::BadClientData => 400,
            MyError::Timeout => 504,
            MyError::ValidationError { .. } => 400,
        }
    }

    /// The text of this error.
    pub fn message(&self) -> (r: String)
        ensures
            r@ == match self {
                MyError::InternalError => "internal error"@,
                MyError::BadClientData => "bad request"@,
                MyError::Timeout => "timeout"@,
                MyError::ValidationError { field } => "Validation error on field: "@ + field@,
            },
    {
        match self {
            MyError::InternalError => String::from_str("internal error"),
            MyError::BadClientData => String::from_str("bad request"),
            MyError::Timeout => String::from_str("timeout"),
            MyError::ValidationError { field } => {
                let mut m = String::from_str("Validation error on field: ");
                m.append(field.as_str());
                m
            },
        }
    }
}

/// The answer to a registration: `registry Successful! name:<name>!`.
pub fn registry_account_reply(name: &String) -> (r: String)
    ensures
        r@ == "registry Successful! name:"@ + name@ + "!"@,
{
    let mut m = String::from_str("registry Successful! name:");
    m.append(name.as_str());
    m.append("!");
    m
}

} // verus!
