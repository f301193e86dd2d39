//! # Configuration
//!
//! This module provides items to help with database connection setup and configuration.

use vstd::prelude::*;

verus! {

/// The default host
///
/// NOTE: If you are using a clustering setup, don't use this!
pub const DEFAULT_HOST: &'static str = "127.0.0.1";

/// The default TCP port (skyhash/tcp)
pub const DEFAULT_TCP_PORT: u16 = 2003;

/// The default TLS port (skyhash/tls)
pub const DEFAULT_TLS_PORT: u16 = 2002;

/// The version of the protocol that a connection speaks.
#[derive(Debug, Clone, Copy, PartialEq, Eq)]
pub enum ProtocolVersion {
    /// Skyhash 2.0
    V2_0,
}

#[derive(Debug, Clone, PartialEq)]
/// Configuration for a Skytable connection
pub struct Config {
    host: String,
    port: u16,
    username: String,
    password: String,
    pub(crate) protocol: ProtocolVersion,
}

/// The settings that a [`Config`] holds.
pub struct ConfigView {
    /// The host to connect to
    pub host: Seq<char>,
    /// The port to connect to
    pub port: u16,
    /// The name to log in with
    pub username: Seq<char>,
    /// The password to log in with
    pub password: Seq<char>,
    /// The version of the protocol to speak
    pub protocol: ProtocolVersion,
}

impl View for Config {
    type V = ConfigView;

    closed spec fn view(&self) -> ConfigView {
        ConfigView {
            host: self.host@,
            port: self.port,
            username: self.username@,
            password: self.password@,
            protocol: self.protocol,
        }
    }
}

impl Config {
    fn _new(
        host: String,
        port: u16,
        username: String,
        password: String,
        protocol: ProtocolVersion,
    ) -> (config: Self)
        ensures
            config@ == (ConfigView {
                host: host@,
                port,
                username: username@,
                password: password@,
                protocol,
            }),
    {
        Self { host, port, username, password, protocol }
    }

    /// Create a new [`Config`] using the default connection settings and using the provided
    /// username and password
    pub fn new_default(username: &str, password: &str) -> (config: Self)
        ensures
            config@ == (ConfigView {
                host: DEFAULT_HOST@,
                port: DEFAULT_TCP_PORT,
                username: username@,
                password: password@,
                protocol: ProtocolVersion::V2_0,
            }),
    {
        Self::new(DEFAULT_HOST, DEFAULT_TCP_PORT, username, password)
    }

    /// Create a new [`Config`] using the given settings.
    ///
    /// **PROTOCOL VERSION**: Defaults to [`ProtocolVersion::V2_0`]
    pub fn new(host: &str, port: u16, username: &str, password: &str) -> (config: Self)
        ensures
            config@ == (ConfigView {
                host: host@,
                port,
                username: username@,
                password: password@,
                protocol: ProtocolVersion::V2_0,
            }),
    {
        Self::_new(
            host.to_owned(),
            port,
            username.to_owned(),
            password.to_owned(),
            ProtocolVersion::V2_0,
        )
    }

    /// Returns the host setting for this this configuration
    pub fn host(&self) -> (host: &str)
        ensures
            host@ == self@.host,
    {
        self.host.as_str()
    }

    /// Returns the port setting for this this configuration
    pub fn port(&self) -> (port: u16)
        ensures
            port == self@.port,
    {
        self.port
    }

    /// Returns the username setting for this this configuration
    pub fn username(&self) -> (username: &str)
        ensures
            username@ == self@.username,
    {
        self.username.as_str()
    }

    /// Returns the password set using this configuration
    pub fn password(&self) -> (password: &str)
        ensures
            password@ == self@.password,
    {
        self.password.as_str()
    }

    /// Returns the version of the protocol that this configuration asks for
    pub fn protocol(&self) -> (protocol: ProtocolVersion)
        ensures
            protocol == self@.protocol,
    {
        self.protocol
    }
}

} // verus!
