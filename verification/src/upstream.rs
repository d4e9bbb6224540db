//! How the proxy authenticates to the brokers, as the configuration says.
use kafka_client::{KerberosCredentials, SaslCredentials, SaslMechanismType};
use vstd::prelude::*;

use crate::config::{AuthConfig, AuthMechanism};
use crate::text;
use crate::text::{parse_number, rsplit_once};

verus! {

broadcast use vstd::string::group_string_axioms;

/// The user name and the password of a SASL login, as kafka_client holds them.
#[verifier::external_type_specification]
#[verifier::external_body]
pub struct ExSaslCredentials(SaslCredentials);

/// A Kerberos login, as kafka_client holds it.
#[verifier::external_type_specification]
#[verifier::external_body]
pub struct ExKerberosCredentials(KerberosCredentials);

/// The SASL mechanisms that log in with user name and password.
#[derive(Debug, Clone, Copy, PartialEq, Eq, Structural)]
pub enum SaslMechanism {
    Plain,
    ScramSha256,
    ScramSha512,
}

/// How the connection to a broker is secured.
#[derive(Debug, Clone, Copy, PartialEq, Eq, Structural)]
pub enum SecurityProtocol {
    /// Not at all.
    Plaintext,
    /// By a SASL login on a connection in plain text.
    SaslPlaintext,
}

/// The authentication towards the brokers.
pub struct UpstreamAuth {
    pub inner: AuthInner,
}

/// The kinds of authentication.
pub enum AuthInner {
    /// None.
    Plaintext,
    /// SASL with user name and password.
    Sasl { mechanism: SaslMechanism, credentials: SaslCredentials },
    /// Kerberos, with the address of the key distribution centre.
    Gssapi { creds: KerberosCredentials, kdc_host: String, kdc_port: u16 },
}

/// What an `AuthInner` holds.
pub enum AuthView {
    Plaintext,
    Sasl { mechanism: SaslMechanism, credentials: SaslCredentials },
    Gssapi { creds: KerberosCredentials, kdc_host: Seq<char>, kdc_port: nat },
}

impl View for UpstreamAuth {
    type V = AuthView;

    open spec fn view(&self) -> AuthView {
        match self.inner {
            AuthInner::Plaintext => AuthView::Plaintext,
            AuthInner::Sasl { mechanism, credentials } => AuthView::Sasl {
                mechanism,
                credentials,
            },
            AuthInner::Gssapi { creds, kdc_host, kdc_port } => AuthView::Gssapi {
                creds,
                kdc_host: kdc_host@,
                kdc_port: kdc_port as nat,
            },
        }
    }
}

/// How a connection is secured: by a SASL login, unless there is no authentication.
pub open spec fn protocol_of(auth: AuthView) -> SecurityProtocol {
    if auth is Plaintext {
        SecurityProtocol::Plaintext
    } else {
        SecurityProtocol::SaslPlaintext
    }
}

/// How to log in on a connection.
pub enum Login<'a> {
    /// Not at all.
    Nothing,
    /// With user name and password.
    Sasl { mechanism: SaslMechanism, credentials: &'a SaslCredentials },
    /// With Kerberos, by way of this key distribution centre.
    Kerberos { creds: &'a KerberosCredentials, kdc_host: &'a str, kdc_port: u16 },
}

impl View for Login<'_> {
    type V = AuthView;

    open spec fn view(&self) -> AuthView {
        match *self {
            Login::Nothing => AuthView::Plaintext,
            Login::Sasl { mechanism, credentials } => AuthView::Sasl {
                mechanism,
                credentials: *credentials,
            },
            Login::Kerberos { creds, kdc_host, kdc_port } => AuthView::Gssapi {
                creds: *creds,
                kdc_host: kdc_host@,
                kdc_port: kdc_port as nat,
            },
        }
    }
}

/// How to make a connection.
pub struct ConnectionPlan<'a> {
    pub protocol: SecurityProtocol,
    /// The name that the proxy gives itself, where it gives one.
    pub client_id: Option<&'static str>,
    pub login: Login<'a>,
    /// The broker's host name, where the login needs it.
    pub broker_host: Option<String>,
}

/// Why there is no way to authenticate.
#[derive(Debug)]
pub enum UpstreamError {
    /// A setting is missing.
    Missing(&'static str),
    /// The mechanism is not available towards the brokers.
    UnsupportedMechanism(String),
    /// The address of the key distribution centre is not `host:port`.
    InvalidKdc(String),
}

/// What an `UpstreamError` holds.
pub enum UpstreamErrorView {
    Missing(Seq<char>),
    UnsupportedMechanism(Seq<char>),
    InvalidKdc(Seq<char>),
}

impl View for UpstreamError {
    type V = UpstreamErrorView;

    open spec fn view(&self) -> UpstreamErrorView {
        match *self {
            UpstreamError::Missing(setting) => UpstreamErrorView::Missing(setting@),
            UpstreamError::UnsupportedMechanism(m) => UpstreamErrorView::UnsupportedMechanism(m@),
            UpstreamError::InvalidKdc(kdc) => UpstreamErrorView::InvalidKdc(kdc@),
        }
    }
}

impl UpstreamError {
    /// The message for the user.
    pub open spec fn shown(self) -> Seq<char> {
        match self {
            UpstreamError::Missing(setting) => "缺少配置项: "@ + setting@,
            UpstreamError::UnsupportedMechanism(m) => "不支持的认证机制: "@ + m@,
            UpstreamError::InvalidKdc(kdc) => "kerberos_kdc 格式错误(应为 host:port): "@ + kdc@,
        }
    }

    /// The message for the user.
    pub fn message(&self) -> (r: String)
        ensures
            r@ == self.shown(),
    {
        match self {
            UpstreamError::Missing(setting) => "缺少配置项: ".to_owned().concat(setting),
            UpstreamError::UnsupportedMechanism(m) => "不支持的认证机制: ".to_owned().concat(
                m.as_str(),
            ),
            UpstreamError::InvalidKdc(kdc) =>
                "kerberos_kdc 格式错误(应为 host:port): ".to_owned().concat(kdc.as_str()),
        }
    }
}

/// The SASL login with these data.
pub uninterp spec fn sasl_login(
    mechanism: SaslMechanism,
    username: Seq<char>,
    password: Seq<char>,
) -> SaslCredentials;

/// `SaslCredentials::new`: the login depends on the mechanism, the user name and the password
/// alone.
#[verifier::external_body]
fn sasl_credentials(mechanism: SaslMechanism, username: String, password: String) -> (r:
    SaslCredentials)
    ensures
        r == sasl_login(mechanism, username@, password@),
{
    let kind = match mechanism {
        SaslMechanism::Plain => SaslMechanismType::Plain,
        SaslMechanism::ScramSha256 => SaslMechanismType::ScramSha256,
        SaslMechanism::ScramSha512 => SaslMechanismType::ScramSha512,
    };
    SaslCredentials::new(kind, username, password)
}

/// The Kerberos login of this principal, without keys.
pub uninterp spec fn kerberos_identity(principal: Seq<char>) -> KerberosCredentials;

/// `KerberosCredentials::new`: the login depends on the principal alone.
#[verifier::external_body]
fn kerberos_credentials(principal: String) -> (r: KerberosCredentials)
    ensures
        r == kerberos_identity(principal@),
{
    KerberosCredentials::new(principal)
}

/// The Kerberos login of this principal with the keys in this file.
pub uninterp spec fn kerberos_login(principal: Seq<char>, keytab: Seq<char>) -> KerberosCredentials;

/// `KerberosCredentials::with_keytab`: the login of a principal that has no keys yet becomes the one
/// with the keys in this file, and depends on the principal and the file alone.
#[verifier::external_body]
fn kerberos_with_keytab(creds: KerberosCredentials, keytab: String) -> (r: KerberosCredentials)
    ensures
        forall|principal: Seq<char>|
            creds == #[trigger] kerberos_identity(principal) ==> r == kerberos_login(
                principal,
                keytab@,
            ),
{
    creds.with_keytab(keytab)
}

/// The Kerberos login of this principal, in this realm, with the keys in this file.
pub uninterp spec fn kerberos_login_in(
    principal: Seq<char>,
    keytab: Seq<char>,
    realm: Seq<char>,
) -> KerberosCredentials;

/// `KerberosCredentials::with_realm`: the login of a principal with keys becomes the one in this
/// realm, and depends on the principal, the key file and the realm alone.
#[verifier::external_body]
fn kerberos_with_realm(creds: KerberosCredentials, realm: &str) -> (r: KerberosCredentials)
    ensures
        forall|principal: Seq<char>, keytab: Seq<char>|
            creds == #[trigger] kerberos_login(principal, keytab) ==> r == kerberos_login_in(
                principal,
                keytab,
                realm@,
            ),
{
    creds.with_realm(realm)
}

/// The host and the port of the key distribution centre.
pub open spec fn kdc_of(kdc: Option<Seq<char>>) -> Result<
    (Seq<char>, nat),
    UpstreamErrorView,
> {
    match kdc {
        None => Err(UpstreamErrorView::Missing("kerberos_kdc"@)),
        Some(s) => match text::around_last(s, ':') {
            None => Err(UpstreamErrorView::InvalidKdc(s)),
            Some((host, port)) => match text::number(port, u16::MAX as nat) {
                None => Err(UpstreamErrorView::InvalidKdc(s)),
                Some(n) => Ok((host, n)),
            },
        },
    }
}

/// Reads the address of the key distribution centre.
pub fn parse_kdc(auth: &AuthConfig) -> (r: Result<(String, u16), UpstreamError>)
    ensures
        match r {
            Ok((host, port)) => kdc_of(text::text_of(auth.kerberos_kdc)) == Ok::<
                (Seq<char>, nat),
                UpstreamErrorView,
            >((host@, port as nat)),
            Err(e) => kdc_of(text::text_of(auth.kerberos_kdc)) == Err::<
                (Seq<char>, nat),
                UpstreamErrorView,
            >(e@),
        },
{
    match &auth.kerberos_kdc {
        None => Err(UpstreamError::Missing("kerberos_kdc")),
        Some(kdc) => match rsplit_once(kdc.as_str(), ':') {
            None => Err(UpstreamError::InvalidKdc(kdc.clone())),
            Some((host, port)) => match parse_number(port, u16::MAX as u64) {
                None => Err(UpstreamError::InvalidKdc(kdc.clone())),
                Some(n) => Ok((host.to_owned(), n as u16)),
            },
        },
    }
}

/// The user name and the password, where both are set.
pub open spec fn login_of(username: Option<Seq<char>>, password: Option<Seq<char>>) -> Result<
    (Seq<char>, Seq<char>),
    UpstreamErrorView,
> {
    match (username, password) {
        (None, _) => Err(UpstreamErrorView::Missing("username"@)),
        (Some(_), None) => Err(UpstreamErrorView::Missing("password"@)),
        (Some(u), Some(p)) => Ok((u, p)),
    }
}

/// The user name and the password, where both are set.
pub fn user_pass(auth: &AuthConfig) -> (r: Result<(String, String), UpstreamError>)
    ensures
        match r {
            Ok((u, p)) => login_of(text::text_of(auth.username), text::text_of(auth.password))
                == Ok::<(Seq<char>, Seq<char>), UpstreamErrorView>((u@, p@)),
            Err(e) => login_of(text::text_of(auth.username), text::text_of(auth.password)) == Err::<
                (Seq<char>, Seq<char>),
                UpstreamErrorView,
            >(e@),
        },
{
    match (&auth.username, &auth.password) {
        (None, _) => Err(UpstreamError::Missing("username")),
        (Some(_), None) => Err(UpstreamError::Missing("password")),
        (Some(u), Some(p)) => Ok((u.clone(), p.clone())),
    }
}

/// The SASL login that the configuration asks for.
pub open spec fn sasl_auth(auth: AuthConfig, mechanism: SaslMechanism) -> Result<
    AuthView,
    UpstreamErrorView,
> {
    match login_of(text::text_of(auth.username), text::text_of(auth.password)) {
        Ok((u, p)) => Ok(
            AuthView::Sasl { mechanism, credentials: sasl_login(mechanism, u, p) },
        ),
        Err(e) => Err(e),
    }
}

/// The Kerberos login that the configuration asks for. The principal and the key file must be
/// set, and the address of the key distribution centre must be `host:port`.
pub open spec fn kerberos_auth(auth: AuthConfig) -> Result<AuthView, UpstreamErrorView> {
    match (text::text_of(auth.kerberos_principal), text::text_of(auth.kerberos_keytab)) {
        (None, _) => Err(UpstreamErrorView::Missing("kerberos_principal"@)),
        (Some(_), None) => Err(UpstreamErrorView::Missing("kerberos_keytab"@)),
        (Some(principal), Some(keytab)) => {
            let creds = match text::text_of(auth.kerberos_realm) {
                Some(realm) => kerberos_login_in(principal, keytab, realm),
                None => kerberos_login(principal, keytab),
            };
            match kdc_of(text::text_of(auth.kerberos_kdc)) {
                Ok((kdc_host, kdc_port)) => Ok(AuthView::Gssapi { creds, kdc_host, kdc_port }),
                Err(e) => Err(e),
            }
        },
    }
}

/// The authentication that the configuration asks for.
pub open spec fn auth_of(auth: AuthConfig) -> Result<AuthView, UpstreamErrorView> {
    match auth.mechanism {
        AuthMechanism::NoAuth => Ok(AuthView::Plaintext),
        AuthMechanism::Plain => sasl_auth(auth, SaslMechanism::Plain),
        AuthMechanism::ScramSha256 => sasl_auth(auth, SaslMechanism::ScramSha256),
        AuthMechanism::ScramSha512 => sasl_auth(auth, SaslMechanism::ScramSha512),
        AuthMechanism::Gssapi => kerberos_auth(auth),
        AuthMechanism::Mtls => Err(UpstreamErrorView::UnsupportedMechanism("mtls"@)),
    }
}

fn sasl_from_config(auth: &AuthConfig, mechanism: SaslMechanism) -> (r: Result<
    UpstreamAuth,
    UpstreamError,
>)
    ensures
        match r {
            Ok(a) => sasl_auth(*auth, mechanism) == Ok::<AuthView, UpstreamErrorView>(a@),
            Err(e) => sasl_auth(*auth, mechanism) == Err::<AuthView, UpstreamErrorView>(e@),
        },
{
    match user_pass(auth) {
        Ok((u, p)) => Ok(
            UpstreamAuth {
                inner: AuthInner::Sasl {
                    mechanism,
                    credentials: sasl_credentials(mechanism, u, p),
                },
            },
        ),
        Err(e) => Err(e),
    }
}

fn kerberos_from_config(auth: &AuthConfig) -> (r: Result<UpstreamAuth, UpstreamError>)
    ensures
        match r {
            Ok(a) => kerberos_auth(*auth) == Ok::<AuthView, UpstreamErrorView>(a@),
            Err(e) => kerberos_auth(*auth) == Err::<AuthView, UpstreamErrorView>(e@),
        },
{
    let principal = match &auth.kerberos_principal {
        Some(p) => p.clone(),
        None => {
            return Err(UpstreamError::Missing("kerberos_principal"));
        },
    };
    let keytab = match &auth.kerberos_keytab {
        Some(k) => k.clone(),
        None => {
            return Err(UpstreamError::Missing("kerberos_keytab"));
        },
    };
    let keyed = kerberos_with_keytab(kerberos_credentials(principal), keytab);
    let creds = match &auth.kerberos_realm {
        Some(realm) => kerberos_with_realm(keyed, realm.as_str()),
        None => keyed,
    };
    match parse_kdc(auth) {
        Ok((kdc_host, kdc_port)) => Ok(
            UpstreamAuth { inner: AuthInner::Gssapi { creds, kdc_host, kdc_port } },
        ),
        Err(e) => Err(e),
    }
}

impl UpstreamAuth {
    /// The authentication that the configuration asks for.
    pub fn from_config(auth: &AuthConfig) -> (r: Result<Self, UpstreamError>)
        ensures
            match r {
                Ok(a) => auth_of(*auth) == Ok::<AuthView, UpstreamErrorView>(a@),
                Err(e) => auth_of(*auth) == Err::<AuthView, UpstreamErrorView>(e@),
            },
    {
        match auth.mechanism {
            AuthMechanism::NoAuth => Ok(UpstreamAuth { inner: AuthInner::Plaintext }),
            AuthMechanism::Plain => sasl_from_config(auth, SaslMechanism::Plain),
            AuthMechanism::ScramSha256 => sasl_from_config(auth, SaslMechanism::ScramSha256),
            AuthMechanism::ScramSha512 => sasl_from_config(auth, SaslMechanism::ScramSha512),
            AuthMechanism::Gssapi => kerberos_from_config(auth),
            AuthMechanism::Mtls => Err(UpstreamError::UnsupportedMechanism("mtls".to_owned())),
        }
    }

    /// The kind of authentication.
    pub fn inner_ref(&self) -> (r: &AuthInner)
        ensures
            *r == self.inner,
    {
        &self.inner
    }

    /// Whether it is Kerberos, so that the broker's host name is part of the login.
    pub fn is_gssapi(&self) -> (r: bool)
        ensures
            r == (self@ is Gssapi),
    {
        match &self.inner {
            AuthInner::Gssapi { .. } => true,
            _ => false,
        }
    }

    /// How to log in.
    pub fn login(&self) -> (r: Login<'_>)
        ensures
            r@ == self@,
    {
        match &self.inner {
            AuthInner::Plaintext => Login::Nothing,
            AuthInner::Sasl { mechanism, credentials } => Login::Sasl {
                mechanism: *mechanism,
                credentials,
            },
            AuthInner::Gssapi { creds, kdc_host, kdc_port } => Login::Kerberos {
                creds,
                kdc_host: kdc_host.as_str(),
                kdc_port: *kdc_port,
            },
        }
    }

    /// How to connect to the broker with this host name. A Kerberos login is for the service of
    /// that very broker.
    pub fn connection_plan(&self, broker_host: &str) -> (r: ConnectionPlan<'_>)
        ensures
            r.protocol == protocol_of(self@),
            r.client_id matches Some(id) && id@ == "kafka-proxy"@,
            r.login@ == self@,
            text::text_of(r.broker_host) == (if self@ is Gssapi {
                Some(broker_host@)
            } else {
                None
            }),
    {
        let broker_host = if self.is_gssapi() {
            Some(broker_host.to_owned())
        } else {
            None
        };
        ConnectionPlan {
            protocol: self.security_protocol(),
            client_id: Some("kafka-proxy"),
            login: self.login(),
            broker_host,
        }
    }

    /// How connections to the brokers are secured: by a SASL login, unless there is no
    /// authentication.
    pub fn security_protocol(&self) -> (r: SecurityProtocol)
        ensures
            r == protocol_of(self@),
    {
        match &self.inner {
            AuthInner::Plaintext => SecurityProtocol::Plaintext,
            _ => SecurityProtocol::SaslPlaintext,
        }
    }
}

/// With a user name and a password, each of the three password mechanisms logs in by its own name
/// with both of them. Without the user name, or without the password, that is what is missing.
pub proof fn passwords_log_in(auth: AuthConfig, mechanism: SaslMechanism, user: String, password: String)
    requires
        match mechanism {
            SaslMechanism::Plain => auth.mechanism == AuthMechanism::Plain,
            SaslMechanism::ScramSha256 => auth.mechanism == AuthMechanism::ScramSha256,
            SaslMechanism::ScramSha512 => auth.mechanism == AuthMechanism::ScramSha512,
        },
    ensures
        auth.username == Some(user) && auth.password == Some(password) ==> auth_of(auth) == Ok::<
            AuthView,
            UpstreamErrorView,
        >(AuthView::Sasl { mechanism, credentials: sasl_login(mechanism, user@, password@) }),
        auth.username is None ==> auth_of(auth) == Err::<AuthView, UpstreamErrorView>(
            UpstreamErrorView::Missing("username"@),
        ),
        auth.username is Some && auth.password is None ==> auth_of(auth) == Err::<
            AuthView,
            UpstreamErrorView,
        >(UpstreamErrorView::Missing("password"@)),
{
}

/// Kerberos logs in as the principal with the keys of the file, in the realm where one is set, by
/// way of the key distribution centre at the host and the port that are written with a colon
/// between them.
pub proof fn kerberos_logs_in(
    auth: AuthConfig,
    principal: String,
    keytab: String,
    kdc: String,
    host: Seq<char>,
    port: nat,
)
    requires
        auth.mechanism == AuthMechanism::Gssapi,
        auth.kerberos_principal == Some(principal),
        auth.kerberos_keytab == Some(keytab),
        auth.kerberos_kdc == Some(kdc),
        kdc@ == host + seq![':'] + text::decimal(port),
    ensures
        port <= u16::MAX && auth.kerberos_realm is None ==> auth_of(auth) == Ok::<
            AuthView,
            UpstreamErrorView,
        >(
            AuthView::Gssapi {
                creds: kerberos_login(principal@, keytab@),
                kdc_host: host,
                kdc_port: port,
            },
        ),
        port <= u16::MAX && auth.kerberos_realm is Some ==> auth_of(auth) == Ok::<
            AuthView,
            UpstreamErrorView,
        >(
            AuthView::Gssapi {
                creds: kerberos_login_in(principal@, keytab@, (auth.kerberos_realm->0)@),
                kdc_host: host,
                kdc_port: port,
            },
        ),
        port > u16::MAX ==> auth_of(auth) == Err::<AuthView, UpstreamErrorView>(
            UpstreamErrorView::InvalidKdc(kdc@),
        ),
{
    text::decimal_reads_back(port, port);
    let d = text::decimal(port);
    if d.contains(':') {
        let i = choose|i: int| 0 <= i < d.len() && d[i] == ':';
        assert(text::is_digit(d[i]));
    }
    text::text_is_cut_at_the_last(host, ':', d);
    if port <= u16::MAX {
        text::decimal_reads_back(port, u16::MAX as nat);
    } else {
        text::other_texts_are_no_numbers(d, 0, port, u16::MAX as nat);
    }
}

/// What a Kerberos login lacks is reported: the principal first, then the key file, then the
/// address of the key distribution centre, which must hold a colon with a port behind it.
pub proof fn faulty_kerberos_is_refused(auth: AuthConfig, kdc: String, host: Seq<char>, port: Seq<char>)
    requires
        auth.mechanism == AuthMechanism::Gssapi,
        !port.contains(':'),
        text::number(port, u16::MAX as nat) is None,
        kdc@ == port || kdc@ == host + seq![':'] + port,
    ensures
        auth.kerberos_principal is None ==> auth_of(auth) == Err::<AuthView, UpstreamErrorView>(
            UpstreamErrorView::Missing("kerberos_principal"@),
        ),
        auth.kerberos_principal is Some && auth.kerberos_keytab is None ==> auth_of(auth) == Err::<
            AuthView,
            UpstreamErrorView,
        >(UpstreamErrorView::Missing("kerberos_keytab"@)),
        auth.kerberos_principal is Some && auth.kerberos_keytab is Some ==> {
            &&& auth.kerberos_kdc is None ==> auth_of(auth) == Err::<AuthView, UpstreamErrorView>(
                UpstreamErrorView::Missing("kerberos_kdc"@),
            )
            &&& auth.kerberos_kdc == Some(kdc) ==> auth_of(auth) == Err::<
                AuthView,
                UpstreamErrorView,
            >(UpstreamErrorView::InvalidKdc(kdc@))
        },
{
    text::text_is_cut_at_the_last(host, ':', port);
}

/// Without authentication the connection is in plain text and needs nothing. Client certificates
/// are not available towards the brokers. Every other login is by SASL.
pub proof fn other_mechanisms(auth: AuthConfig)
    ensures
        auth.mechanism == AuthMechanism::NoAuth ==> auth_of(auth) == Ok::<
            AuthView,
            UpstreamErrorView,
        >(AuthView::Plaintext),
        auth.mechanism == AuthMechanism::Mtls ==> auth_of(auth) == Err::<
            AuthView,
            UpstreamErrorView,
        >(UpstreamErrorView::UnsupportedMechanism("mtls"@)),
        auth_of(auth) matches Ok(a) ==> (protocol_of(a) == SecurityProtocol::Plaintext
            <==> auth.mechanism == AuthMechanism::NoAuth),
        auth_of(auth) matches Ok(a) ==> (a is Gssapi <==> auth.mechanism == AuthMechanism::Gssapi),
{
}

} // verus!
