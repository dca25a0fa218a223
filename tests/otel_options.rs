use turborepo_core::kv::KeyValueMap;
use turborepo_core::otel::{
    parse_key_value_pairs, Error, ExperimentalOtelMetricsOptions, ExperimentalOtelOptions,
    ExperimentalOtelProtocol, ExperimentalOtelTaskAttributesOptions,
};

fn build_env_map(entries: &[(&'static str, &str)]) -> KeyValueMap {
    let mut map = KeyValueMap::new();
    for (k, v) in entries {
        map.insert(k.to_string(), v.to_string());
    }
    map
}

#[test]
fn test_from_env_map_empty() {
    let map = KeyValueMap::new();
    let result = ExperimentalOtelOptions::from_env_map(&map).unwrap();
    assert_eq!(result, None);
}

#[test]
fn test_from_env_map_enabled_true() {
    let map = build_env_map(&[("experimental_otel_enabled", "1")]);
    let result = ExperimentalOtelOptions::from_env_map(&map).unwrap();
    assert!(result.is_some());
    assert_eq!(result.unwrap().enabled, Some(true));
}

#[test]
fn test_from_env_map_enabled_false() {
    let map = build_env_map(&[("experimental_otel_enabled", "0")]);
    let result = ExperimentalOtelOptions::from_env_map(&map).unwrap();
    assert!(result.is_some());
    assert_eq!(result.unwrap().enabled, Some(false));
}

#[test]
fn test_from_env_map_enabled_true_string() {
    let map = build_env_map(&[("experimental_otel_enabled", "true")]);
    let result = ExperimentalOtelOptions::from_env_map(&map).unwrap();
    assert!(result.is_some());
    assert_eq!(result.unwrap().enabled, Some(true));
}

#[test]
fn test_from_env_map_enabled_invalid() {
    let map = build_env_map(&[("experimental_otel_enabled", "invalid")]);
    let result = ExperimentalOtelOptions::from_env_map(&map);
    assert!(result.is_err());
    match result.unwrap_err() {
        Error::InvalidExperimentalOtelConfig { message } => {
            assert!(message.contains("TURBO_EXPERIMENTAL_OTEL_ENABLED"));
        }
        _ => panic!("Expected InvalidExperimentalOtelConfig"),
    }
}

#[test]
fn test_from_env_map_protocol_grpc() {
    let map = build_env_map(&[("experimental_otel_protocol", "grpc")]);
    let result = ExperimentalOtelOptions::from_env_map(&map).unwrap();
    assert!(result.is_some());
    assert_eq!(
        result.unwrap().protocol,
        Some(ExperimentalOtelProtocol::Grpc)
    );
}

#[test]
fn test_from_env_map_protocol_http_protobuf() {
    for protocol_str in ["http/protobuf", "http", "http_protobuf"] {
        let map = build_env_map(&[("experimental_otel_protocol", protocol_str)]);
        let result = ExperimentalOtelOptions::from_env_map(&map).unwrap();
        assert!(result.is_some());
        assert_eq!(
            result.unwrap().protocol,
            Some(ExperimentalOtelProtocol::HttpProtobuf)
        );
    }
}

#[test]
fn test_from_env_map_protocol_invalid() {
    let map = build_env_map(&[("experimental_otel_protocol", "invalid")]);
    let result = ExperimentalOtelOptions::from_env_map(&map);
    assert!(result.is_err());
    match result.unwrap_err() {
        Error::InvalidExperimentalOtelConfig { message } => {
            assert!(message.contains("Unsupported"));
            assert!(message.contains("`invalid`"));
        }
        _ => panic!("Expected InvalidExperimentalOtelConfig"),
    }
}

#[test]
fn test_from_env_map_endpoint() {
    let endpoint = "https://example.com/otel";
    let map = build_env_map(&[("experimental_otel_endpoint", endpoint)]);
    let result = ExperimentalOtelOptions::from_env_map(&map).unwrap();
    assert!(result.is_some());
    assert_eq!(result.unwrap().endpoint, Some(endpoint.to_string()));
}

#[test]
fn test_from_env_map_endpoint_empty_ignored() {
    let map = build_env_map(&[("experimental_otel_endpoint", "")]);
    let result = ExperimentalOtelOptions::from_env_map(&map).unwrap();
    assert_eq!(result, None);
}

#[test]
fn test_from_env_map_timeout_ms() {
    let map = build_env_map(&[("experimental_otel_timeout_ms", "5000")]);
    let result = ExperimentalOtelOptions::from_env_map(&map).unwrap();
    assert!(result.is_some());
    assert_eq!(result.unwrap().timeout_ms, Some(5000));
}

#[test]
fn test_from_env_map_timeout_ms_invalid() {
    let map = build_env_map(&[("experimental_otel_timeout_ms", "not-a-number")]);
    let result = ExperimentalOtelOptions::from_env_map(&map);
    assert!(result.is_err());
    match result.unwrap_err() {
        Error::InvalidExperimentalOtelConfig { message } => {
            assert!(message.contains("TURBO_EXPERIMENTAL_OTEL_TIMEOUT_MS must be a number"));
        }
        _ => panic!("Expected InvalidExperimentalOtelConfig"),
    }
}

#[test]
fn test_from_env_map_interval_ms() {
    let map = build_env_map(&[("experimental_otel_interval_ms", "30000")]);
    let result = ExperimentalOtelOptions::from_env_map(&map).unwrap();
    assert!(result.is_some());
    assert_eq!(result.unwrap().interval_ms, Some(30000));
}

#[test]
fn test_from_env_map_interval_ms_invalid() {
    let map = build_env_map(&[("experimental_otel_interval_ms", "not-a-number")]);
    let result = ExperimentalOtelOptions::from_env_map(&map);
    assert!(result.is_err());
    match result.unwrap_err() {
        Error::InvalidExperimentalOtelConfig { message } => {
            assert!(message.contains("TURBO_EXPERIMENTAL_OTEL_INTERVAL_MS must be a number"));
        }
        _ => panic!("Expected InvalidExperimentalOtelConfig"),
    }
}

#[test]
fn test_from_env_map_headers_single() {
    let map = build_env_map(&[("experimental_otel_headers", "key1=value1")]);
    let result = ExperimentalOtelOptions::from_env_map(&map).unwrap();
    assert!(result.is_some());
    let headers = result.unwrap().headers.unwrap();
    assert_eq!(headers.get("key1"), Some(&"value1".to_string()));
}

#[test]
fn test_from_env_map_headers_multiple() {
    let map = build_env_map(&[("experimental_otel_headers", "key1=value1,key2=value2")]);
    let result = ExperimentalOtelOptions::from_env_map(&map).unwrap();
    assert!(result.is_some());
    let headers = result.unwrap().headers.unwrap();
    assert_eq!(headers.get("key1"), Some(&"value1".to_string()));
    assert_eq!(headers.get("key2"), Some(&"value2".to_string()));
}

#[test]
fn test_from_env_map_headers_with_spaces() {
    let map = build_env_map(&[(
        "experimental_otel_headers",
        " key1 = value1 , key2 = value2 ",
    )]);
    let result = ExperimentalOtelOptions::from_env_map(&map).unwrap();
    assert!(result.is_some());
    let headers = result.unwrap().headers.unwrap();
    assert_eq!(headers.get("key1"), Some(&"value1".to_string()));
    assert_eq!(headers.get("key2"), Some(&"value2".to_string()));
}

#[test]
fn test_from_env_map_headers_missing_equals() {
    let map = build_env_map(&[("experimental_otel_headers", "key1value1")]);
    let result = ExperimentalOtelOptions::from_env_map(&map);
    assert!(result.is_err());
    match result.unwrap_err() {
        Error::InvalidExperimentalOtelConfig { message } => {
            assert!(message.contains("key=value format"));
        }
        _ => panic!("Expected InvalidExperimentalOtelConfig"),
    }
}

#[test]
fn test_from_env_map_headers_empty_key() {
    let map = build_env_map(&[("experimental_otel_headers", "=value1")]);
    let result = ExperimentalOtelOptions::from_env_map(&map);
    assert!(result.is_err());
    match result.unwrap_err() {
        Error::InvalidExperimentalOtelConfig { message } => {
            assert!(message.contains("keys cannot be empty"));
        }
        _ => panic!("Expected InvalidExperimentalOtelConfig"),
    }
}

#[test]
fn test_from_env_map_resource_single() {
    let map = build_env_map(&[("experimental_otel_resource", "service.name=my-service")]);
    let result = ExperimentalOtelOptions::from_env_map(&map).unwrap();
    assert!(result.is_some());
    let resource = result.unwrap().resource.unwrap();
    assert_eq!(
        resource.get("service.name"),
        Some(&"my-service".to_string())
    );
}

#[test]
fn test_from_env_map_resource_multiple() {
    let map = build_env_map(&[(
        "experimental_otel_resource",
        "service.name=my-service,env=production",
    )]);
    let result = ExperimentalOtelOptions::from_env_map(&map).unwrap();
    assert!(result.is_some());
    let resource = result.unwrap().resource.unwrap();
    assert_eq!(
        resource.get("service.name"),
        Some(&"my-service".to_string())
    );
    assert_eq!(resource.get("env"), Some(&"production".to_string()));
}

#[test]
fn test_from_env_map_metrics_run_summary() {
    let map = build_env_map(&[("experimental_otel_metrics_run_summary", "1")]);
    let result = ExperimentalOtelOptions::from_env_map(&map).unwrap();
    assert!(result.is_some());
    let metrics = result.unwrap().metrics.unwrap();
    assert_eq!(metrics.run_summary, Some(true));
}

#[test]
fn test_from_env_map_metrics_task_details() {
    let map = build_env_map(&[("experimental_otel_metrics_task_details", "1")]);
    let result = ExperimentalOtelOptions::from_env_map(&map).unwrap();
    assert!(result.is_some());
    let metrics = result.unwrap().metrics.unwrap();
    assert_eq!(metrics.task_details, Some(true));
}

#[test]
fn test_from_env_map_metrics_both() {
    let map = build_env_map(&[
        ("experimental_otel_metrics_run_summary", "1"),
        ("experimental_otel_metrics_task_details", "0"),
    ]);
    let result = ExperimentalOtelOptions::from_env_map(&map).unwrap();
    assert!(result.is_some());
    let metrics = result.unwrap().metrics.unwrap();
    assert_eq!(metrics.run_summary, Some(true));
    assert_eq!(metrics.task_details, Some(false));
}

#[test]
fn test_from_env_map_metrics_task_attributes_id() {
    let map = build_env_map(&[("experimental_otel_metrics_task_attributes_id", "1")]);
    let result = ExperimentalOtelOptions::from_env_map(&map).unwrap();
    assert!(result.is_some());
    let metrics = result.unwrap().metrics.unwrap();
    let attrs = metrics.task_attributes.unwrap();
    assert_eq!(attrs.id, Some(true));
    assert_eq!(attrs.hashes, None);
}

#[test]
fn test_from_env_map_metrics_task_attributes_hashes() {
    let map = build_env_map(&[("experimental_otel_metrics_task_attributes_hashes", "1")]);
    let result = ExperimentalOtelOptions::from_env_map(&map).unwrap();
    assert!(result.is_some());
    let metrics = result.unwrap().metrics.unwrap();
    let attrs = metrics.task_attributes.unwrap();
    assert_eq!(attrs.id, None);
    assert_eq!(attrs.hashes, Some(true));
}

#[test]
fn test_from_env_map_metrics_task_attributes_both() {
    let map = build_env_map(&[
        ("experimental_otel_metrics_task_attributes_id", "1"),
        ("experimental_otel_metrics_task_attributes_hashes", "0"),
    ]);
    let result = ExperimentalOtelOptions::from_env_map(&map).unwrap();
    assert!(result.is_some());
    let metrics = result.unwrap().metrics.unwrap();
    let attrs = metrics.task_attributes.unwrap();
    assert_eq!(attrs.id, Some(true));
    assert_eq!(attrs.hashes, Some(false));
}

#[test]
fn test_from_env_map_enabled_with_endpoint() {
    let map = build_env_map(&[
        ("experimental_otel_enabled", "1"),
        ("experimental_otel_endpoint", "https://example.com/otel"),
    ]);
    let result = ExperimentalOtelOptions::from_env_map(&map).unwrap();
    assert!(result.is_some());
    let opts = result.unwrap();
    assert_eq!(opts.enabled, Some(true));
    assert_eq!(opts.endpoint, Some("https://example.com/otel".to_string()));
}

#[test]
fn test_from_env_map_disabled_with_endpoint() {
    let map = build_env_map(&[
        ("experimental_otel_enabled", "0"),
        ("experimental_otel_endpoint", "https://example.com/otel"),
    ]);
    let result = ExperimentalOtelOptions::from_env_map(&map).unwrap();
    assert!(result.is_some());
    let opts = result.unwrap();
    assert_eq!(opts.enabled, Some(false));
    assert_eq!(opts.endpoint, Some("https://example.com/otel".to_string()));
}

#[test]
fn test_from_env_map_metrics_run_summary_disabled() {
    let map = build_env_map(&[("experimental_otel_metrics_run_summary", "0")]);
    let result = ExperimentalOtelOptions::from_env_map(&map).unwrap();
    assert!(result.is_some());
    let metrics = result.unwrap().metrics.unwrap();
    assert_eq!(metrics.run_summary, Some(false));
}

#[test]
fn test_from_env_map_metrics_task_details_disabled() {
    let map = build_env_map(&[("experimental_otel_metrics_task_details", "0")]);
    let result = ExperimentalOtelOptions::from_env_map(&map).unwrap();
    assert!(result.is_some());
    let metrics = result.unwrap().metrics.unwrap();
    assert_eq!(metrics.task_details, Some(false));
}

#[test]
fn test_from_env_map_combined() {
    let map = build_env_map(&[
        ("experimental_otel_enabled", "1"),
        ("experimental_otel_protocol", "grpc"),
        ("experimental_otel_endpoint", "https://example.com/otel"),
        ("experimental_otel_timeout_ms", "15000"),
        ("experimental_otel_interval_ms", "30000"),
        ("experimental_otel_headers", "auth=token123"),
        ("experimental_otel_resource", "service.name=test"),
        ("experimental_otel_metrics_run_summary", "1"),
    ]);
    let result = ExperimentalOtelOptions::from_env_map(&map).unwrap();
    assert!(result.is_some());
    let opts = result.unwrap();
    assert_eq!(opts.enabled, Some(true));
    assert_eq!(opts.protocol, Some(ExperimentalOtelProtocol::Grpc));
    assert_eq!(opts.endpoint, Some("https://example.com/otel".to_string()));
    assert_eq!(opts.timeout_ms, Some(15000));
    assert_eq!(opts.interval_ms, Some(30000));
    assert_eq!(
        opts.headers.unwrap().get("auth"),
        Some(&"token123".to_string())
    );
    assert_eq!(
        opts.resource.unwrap().get("service.name"),
        Some(&"test".to_string())
    );
    assert_eq!(opts.metrics.unwrap().run_summary, Some(true));
}

#[test]
fn test_from_env_map_use_remote_cache_token_enabled() {
    let map = build_env_map(&[("experimental_otel_use_remote_cache_token", "1")]);
    let result = ExperimentalOtelOptions::from_env_map(&map).unwrap();
    assert!(result.is_some());
    assert_eq!(result.unwrap().use_remote_cache_token, Some(true));
}

#[test]
fn test_from_env_map_use_remote_cache_token_disabled() {
    let map = build_env_map(&[("experimental_otel_use_remote_cache_token", "0")]);
    let result = ExperimentalOtelOptions::from_env_map(&map).unwrap();
    assert!(result.is_some());
    assert_eq!(result.unwrap().use_remote_cache_token, Some(false));
}

#[test]
fn test_from_env_map_use_remote_cache_token_invalid() {
    let map = build_env_map(&[("experimental_otel_use_remote_cache_token", "invalid")]);
    let result = ExperimentalOtelOptions::from_env_map(&map);
    assert!(result.is_err());
    match result.unwrap_err() {
        Error::InvalidExperimentalOtelConfig { message } => {
            assert!(message.contains("TURBO_EXPERIMENTAL_OTEL_USE_REMOTE_CACHE_TOKEN"));
        }
        _ => panic!("Expected InvalidExperimentalOtelConfig"),
    }
}

#[test]
fn test_is_empty_default() {
    let opts = ExperimentalOtelOptions::default();
    assert!(opts.is_empty());
}

#[test]
fn test_is_empty_with_enabled() {
    let opts = ExperimentalOtelOptions {
        enabled: Some(true),
        ..Default::default()
    };
    assert!(!opts.is_empty());
}

#[test]
fn test_is_empty_with_use_remote_cache_token() {
    let opts = ExperimentalOtelOptions {
        use_remote_cache_token: Some(true),
        ..Default::default()
    };
    assert!(!opts.is_empty());
}

#[test]
fn test_is_empty_with_empty_headers() {
    let opts = ExperimentalOtelOptions {
        headers: Some(KeyValueMap::new()),
        ..Default::default()
    };
    assert!(opts.is_empty());
}

#[test]
fn test_is_empty_with_nonempty_headers() {
    let mut headers = KeyValueMap::new();
    headers.insert("key".to_string(), "value".to_string());
    let opts = ExperimentalOtelOptions {
        headers: Some(headers),
        ..Default::default()
    };
    assert!(!opts.is_empty());
}

#[test]
fn test_is_empty_with_task_attributes() {
    let opts = ExperimentalOtelOptions {
        metrics: Some(ExperimentalOtelMetricsOptions {
            run_summary: None,
            task_details: None,
            task_attributes: Some(ExperimentalOtelTaskAttributesOptions {
                id: Some(true),
                hashes: None,
            }),
        }),
        ..Default::default()
    };
    assert!(!opts.is_empty());
}

#[test]
fn test_parse_key_value_pairs_valid() {
    let result = parse_key_value_pairs("key1=value1,key2=value2", "TEST").unwrap();
    assert_eq!(result.get("key1"), Some(&"value1".to_string()));
    assert_eq!(result.get("key2"), Some(&"value2".to_string()));
}

#[test]
fn test_parse_key_value_pairs_missing_equals() {
    let result = parse_key_value_pairs("noequals", "TEST");
    assert!(result.is_err());
}

#[test]
fn test_parse_key_value_pairs_empty_key() {
    let result = parse_key_value_pairs("=value", "TEST");
    assert!(result.is_err());
}

#[test]
fn test_parse_key_value_pairs_empty_string() {
    let result = parse_key_value_pairs("", "TEST").unwrap();
    assert!(result.is_empty());
}
