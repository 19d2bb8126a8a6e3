use lodestone::balancer::LoadBalancer;
use lodestone::circuit_breaker::CircuitBreaker;
use lodestone::rate_limit::RateLimiter;
use lodestone::security::{bearer_token, first_private_key, token_valid};
use lodestone::types::{Error, HealthStatus, Service, TlsConfigurationError};

#[test]
fn service_new_builds_health_url_and_id() {
    let s = Service::new("web".to_string(), "10.1.2.3".to_string(), 8080);
    assert_eq!(s.health_check_url, "http://10.1.2.3:8080/health");
    assert_eq!(s.id.len(), 36);
    let id: Vec<char> = s.id.chars().collect();
    for (i, c) in id.iter().enumerate() {
        if i == 8 || i == 13 || i == 18 || i == 23 {
            assert_eq!(*c, '-');
        } else {
            assert!(c.is_ascii_hexdigit() && !c.is_ascii_uppercase());
        }
    }
    assert_eq!(id[14], '4');
    assert!("89ab".contains(id[19]));
    assert_eq!(s.name, "web");
    assert!(s.tags.is_empty() && s.metadata.is_empty());
    let t = Service::new("web".to_string(), "h".to_string(), 0);
    assert_eq!(t.health_check_url, "http://h:0/health");
    assert_ne!(s.id, t.id);
    let u = Service::new("web".to_string(), "h".to_string(), 65535);
    assert_eq!(u.health_check_url, "http://h:65535/health");
}

#[test]
fn balancer_picks_from_pool() {
    let mut lb = LoadBalancer::new();
    assert!(lb.get_service("web").is_none());
    lb.add_service(Service::new("web".to_string(), "a".to_string(), 1));
    lb.add_service(Service::new("web".to_string(), "b".to_string(), 2));
    lb.add_service(Service::new("db".to_string(), "c".to_string(), 3));
    assert_eq!(lb.pool_size("web"), 2);
    assert_eq!(lb.get_service_at("web", 3).unwrap().address, "b");
    assert_eq!(lb.get_service_at("web", 4).unwrap().address, "a");
    for _ in 0..10 {
        let s = lb.get_service("web").unwrap();
        assert!(s.address == "a" || s.address == "b");
    }
    assert_eq!(lb.get_service("db").unwrap().address, "c");
}

#[test]
fn breaker_opens_and_resets() {
    let mut b = CircuitBreaker::new(2, 100);
    assert!(!b.record_failure(10));
    assert!(!b.is_open(10));
    assert!(b.record_failure(20));
    assert!(b.is_open(50));
    assert!(b.is_open(120));
    assert!(!b.is_open(121));
    assert!(!b.is_open(122));
    b.record_failure(130);
    b.record_success();
    assert!(!b.is_open(131));
}

#[test]
fn rate_limiter_sliding_window() {
    let mut r = RateLimiter::new(2, 1000);
    assert!(r.check_rate_limit("k", 0));
    assert!(r.check_rate_limit("k", 10));
    assert!(!r.check_rate_limit("k", 20));
    assert!(r.check_rate_limit("other", 20));
    assert!(r.check_rate_limit("k", 1000));
    assert!(!r.check_rate_limit("k", 1005));
    assert!(r.check_rate_limit("k", 2011));
}

#[test]
fn bearer_header_parsing() {
    assert_eq!(bearer_token("Bearer abc.def"), Some("abc.def".to_string()));
    assert_eq!(bearer_token("Bearer "), Some("".to_string()));
    assert_eq!(bearer_token("Basic abc"), None);
    assert_eq!(bearer_token("bearer abc"), None);
    assert!(token_valid(100, 100));
    assert!(!token_valid(99, 100));
}

#[test]
fn private_key_selection() {
    assert_eq!(first_private_key(vec![vec![1, 2], vec![3]], "k.pem"), Ok(vec![1, 2]));
    assert_eq!(
        first_private_key(vec![], "k.pem"),
        Err(TlsConfigurationError::PrivateKeyNotFound("k.pem".to_string()))
    );
}

#[test]
fn health_and_status_codes() {
    assert_eq!(HealthStatus::from_probe(true, true), HealthStatus::Healthy);
    assert_eq!(HealthStatus::from_probe(true, false), HealthStatus::Unhealthy);
    assert_eq!(HealthStatus::from_probe(false, true), HealthStatus::Unhealthy);
    assert_eq!(HealthStatus::from_status_line(true, &b"HTTP/1.0 200 OK".to_vec()), HealthStatus::Healthy);
    assert_eq!(HealthStatus::from_status_line(true, &b"HTTP/1.1 503 Se".to_vec()), HealthStatus::Unhealthy);
    assert_eq!(HealthStatus::from_status_line(true, &b"HTTP".to_vec()), HealthStatus::Unhealthy);
    assert_eq!(HealthStatus::from_status_line(false, &b"HTTP/1.0 200 OK".to_vec()), HealthStatus::Unhealthy);
    assert_eq!(Error::NotFound("x".to_string()).status_code(), 404);
    assert_eq!(Error::BadRequest("x".to_string()).status_code(), 400);
    assert_eq!(Error::Auth("x".to_string()).status_code(), 401);
    assert_eq!(Error::RateLimit.status_code(), 429);
    assert_eq!(Error::NotLeader(Some(2)).status_code(), 503);
    assert_eq!(Error::Compacted.status_code(), 500);
}
