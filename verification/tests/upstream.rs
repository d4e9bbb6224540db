use kafka_proxy::config::{AuthConfig, AuthMechanism};
use kafka_proxy::upstream::{
    parse_kdc, user_pass, AuthInner, Login, SaslMechanism, SecurityProtocol, UpstreamAuth, UpstreamError,
};

fn refusal(auth: &AuthConfig) -> String {
    match UpstreamAuth::from_config(auth) {
        Ok(_) => String::new(),
        Err(e) => e.message(),
    }
}

fn accepted(auth: &AuthConfig) -> UpstreamAuth {
    match UpstreamAuth::from_config(auth) {
        Ok(a) => a,
        Err(e) => panic!("{}", e.message()),
    }
}

#[test]
fn plaintext_auth() {
    let auth = AuthConfig {
        mechanism: AuthMechanism::NoAuth,
        ..Default::default()
    };
    let ua = accepted(&auth);
    assert!(matches!(ua.inner, AuthInner::Plaintext));
    assert_eq!(ua.security_protocol(), SecurityProtocol::Plaintext);
    assert!(!ua.is_gssapi());
}

#[test]
fn gssapi_requires_principal_keytab_kdc() {
    let mut auth = AuthConfig {
        mechanism: AuthMechanism::Gssapi,
        ..Default::default()
    };
    assert_eq!(refusal(&auth), "缺少配置项: kerberos_principal");
    auth.kerberos_principal = Some("dayu@HADOOP.COM".into());
    assert_eq!(refusal(&auth), "缺少配置项: kerberos_keytab");
    auth.kerberos_keytab = Some("/etc/kp/kb.keytab".into());
    assert_eq!(refusal(&auth), "缺少配置项: kerberos_kdc");
    auth.kerberos_kdc = Some("kdc:88".into());
    let ua = accepted(&auth);
    assert!(matches!(ua.inner, AuthInner::Gssapi { .. }));
    assert_eq!(ua.security_protocol(), SecurityProtocol::SaslPlaintext);
    assert!(ua.is_gssapi());
}

#[test]
fn gssapi_credentials_hold_the_settings() {
    let mut auth = AuthConfig {
        mechanism: AuthMechanism::Gssapi,
        kerberos_principal: Some("dayu".into()),
        kerberos_keytab: Some("/k".into()),
        kerberos_kdc: Some("kdc:88".into()),
        ..Default::default()
    };
    match accepted(&auth).inner_ref() {
        AuthInner::Gssapi {
            creds,
            kdc_host,
            kdc_port,
        } => {
            assert_eq!(creds.principal, "dayu");
            assert_eq!(creds.keytab_path.as_deref(), Some("/k"));
            assert_eq!(creds.realm, None);
            assert_eq!(kdc_host, "kdc");
            assert_eq!(*kdc_port, 88);
        }
        _ => unreachable!(),
    }
    auth.kerberos_realm = Some("R".into());
    match accepted(&auth).inner_ref() {
        AuthInner::Gssapi { creds, .. } => {
            assert_eq!(creds.principal, "dayu");
            assert_eq!(creds.keytab_path.as_deref(), Some("/k"));
            assert_eq!(creds.realm.as_deref(), Some("R"));
        }
        _ => unreachable!(),
    }
}

#[test]
fn plain_auth() {
    let auth = AuthConfig {
        mechanism: AuthMechanism::Plain,
        username: Some("user".into()),
        password: Some("pass".into()),
        ..Default::default()
    };
    let ua = accepted(&auth);
    assert!(matches!(ua.inner, AuthInner::Sasl { .. }));
    match ua.inner_ref() {
        AuthInner::Sasl {
            mechanism,
            credentials,
        } => {
            assert_eq!(*mechanism, SaslMechanism::Plain);
            assert_eq!(credentials.username(), "user");
            assert_eq!(credentials.password(), "pass");
            assert_eq!(credentials.mechanism().as_str(), "PLAIN");
        }
        _ => unreachable!(),
    }
}

#[test]
fn scram_auth() {
    let auth = AuthConfig {
        mechanism: AuthMechanism::ScramSha512,
        username: Some("user".into()),
        password: Some("pass".into()),
        ..Default::default()
    };
    let ua = accepted(&auth);
    assert!(matches!(
        ua.inner,
        AuthInner::Sasl {
            mechanism: SaslMechanism::ScramSha512,
            ..
        }
    ));
}

#[test]
fn scram_sha256_auth() {
    let auth = AuthConfig {
        mechanism: AuthMechanism::ScramSha256,
        username: Some("user".into()),
        password: Some("pass".into()),
        ..Default::default()
    };
    match accepted(&auth).inner_ref() {
        AuthInner::Sasl { credentials, .. } => {
            assert_eq!(credentials.mechanism().as_str(), "SCRAM-SHA-256");
        }
        _ => unreachable!(),
    }
}

#[test]
fn login_requires_user_and_password() {
    let mut auth = AuthConfig {
        mechanism: AuthMechanism::Plain,
        ..Default::default()
    };
    assert_eq!(refusal(&auth), "缺少配置项: username");
    auth.username = Some("u".into());
    assert_eq!(refusal(&auth), "缺少配置项: password");
    auth.password = Some("p".into());
    assert_eq!(
        user_pass(&auth).unwrap(),
        ("u".to_string(), "p".to_string())
    );
}

#[test]
fn parse_kdc_format() {
    let auth = AuthConfig {
        mechanism: AuthMechanism::Gssapi,
        kerberos_principal: Some("p".into()),
        kerberos_keytab: Some("k".into()),
        kerberos_kdc: Some("kdc.example.com:88".into()),
        ..Default::default()
    };
    let (h, p) = parse_kdc(&auth).unwrap();
    assert_eq!(h, "kdc.example.com");
    assert_eq!(p, 88);
    let bad = AuthConfig {
        kerberos_kdc: Some("noport".into()),
        ..auth
    };
    assert!(parse_kdc(&bad).is_err());
}

#[test]
fn faulty_kdc_is_shown() {
    for kdc in ["noport", "kdc:", "kdc:65536", "kdc:x"] {
        let auth = AuthConfig {
            kerberos_kdc: Some(kdc.into()),
            ..Default::default()
        };
        let e = parse_kdc(&auth).unwrap_err();
        assert!(matches!(e, UpstreamError::InvalidKdc(_)));
        assert_eq!(
            e.message(),
            format!("kerberos_kdc 格式错误(应为 host:port): {kdc}")
        );
    }
}

#[test]
fn mtls_unsupported() {
    let auth = AuthConfig {
        mechanism: AuthMechanism::Mtls,
        ..Default::default()
    };
    assert!(UpstreamAuth::from_config(&auth).is_err());
    assert_eq!(refusal(&auth), "不支持的认证机制: mtls");
}

#[test]
fn plan_without_login() {
    let ua = accepted(&AuthConfig::default());
    let plan = ua.connection_plan("b1.example");
    assert_eq!(plan.protocol, SecurityProtocol::Plaintext);
    assert_eq!(plan.client_id, Some("kafka-proxy"));
    assert!(matches!(plan.login, Login::Nothing));
    assert_eq!(plan.broker_host, None);
}

#[test]
fn plan_with_password() {
    let ua = accepted(&AuthConfig {
        mechanism: AuthMechanism::ScramSha256,
        username: Some("user".into()),
        password: Some("pass".into()),
        ..Default::default()
    });
    let plan = ua.connection_plan("b1.example");
    assert_eq!(plan.protocol, SecurityProtocol::SaslPlaintext);
    assert_eq!(plan.client_id, Some("kafka-proxy"));
    assert_eq!(plan.broker_host, None);
    match plan.login {
        Login::Sasl {
            mechanism,
            credentials,
        } => {
            assert_eq!(mechanism, SaslMechanism::ScramSha256);
            assert_eq!(credentials.username(), "user");
            assert_eq!(credentials.password(), "pass");
        }
        _ => panic!("no SASL login"),
    }
}

#[test]
fn plan_with_kerberos_names_the_broker() {
    let ua = accepted(&AuthConfig {
        mechanism: AuthMechanism::Gssapi,
        kerberos_principal: Some("p".into()),
        kerberos_keytab: Some("k".into()),
        kerberos_kdc: Some("kdc:88".into()),
        ..Default::default()
    });
    for host in ["b1.example", "b2.example"] {
        let plan = ua.connection_plan(host);
        assert_eq!(plan.protocol, SecurityProtocol::SaslPlaintext);
        assert_eq!(plan.broker_host.as_deref(), Some(host));
        match plan.login {
            Login::Kerberos {
                kdc_host, kdc_port, ..
            } => {
                assert_eq!(kdc_host, "kdc");
                assert_eq!(kdc_port, 88);
            }
            _ => panic!("no Kerberos login"),
        }
    }
}
