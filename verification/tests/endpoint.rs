use streamchat::endpoint::parse_endpoint;
use streamchat::wordfreq::{format_with_commas, parse_usize_opt};

#[test]
fn endpoints_accepted() {
    assert_eq!(parse_endpoint("localhost:8080"), Ok("localhost:8080".to_string()));
    assert_eq!(parse_endpoint("  localhost:8080\n"), Ok("localhost:8080".to_string()));
    assert_eq!(parse_endpoint("127.0.0.1:1"), Ok("127.0.0.1:1".to_string()));
    assert_eq!(parse_endpoint("host :65535"), Ok("host:65535".to_string()));
    assert_eq!(parse_endpoint("host:0080"), Ok("host:80".to_string()));
    assert_eq!(parse_endpoint("host:+80"), Ok("host:80".to_string()));
    // The last colon splits.
    assert_eq!(parse_endpoint("[::1]:9000"), Ok("[::1]:9000".to_string()));
    assert_eq!(parse_endpoint("a:b:7"), Ok("a:b:7".to_string()));
}

#[test]
fn endpoints_rejected() {
    assert_eq!(
        parse_endpoint("localhost"),
        Err("invalid address 'localhost' (expected host:port)".to_string())
    );
    assert_eq!(
        parse_endpoint("   "),
        Err("invalid address '' (expected host:port)".to_string())
    );
    assert_eq!(
        parse_endpoint(" :8080 "),
        Err("invalid address ':8080' (empty host)".to_string())
    );
    assert_eq!(
        parse_endpoint("  \t:8080"),
        Err("invalid address ':8080' (empty host)".to_string())
    );
    assert_eq!(parse_endpoint("a: :80"), Ok("a::80".to_string()));
    assert_eq!(
        parse_endpoint("host:"),
        Err("invalid address 'host:' (invalid port)".to_string())
    );
    assert_eq!(
        parse_endpoint("host: 80"),
        Err("invalid address 'host: 80' (invalid port)".to_string())
    );
    assert_eq!(
        parse_endpoint("host:http"),
        Err("invalid address 'host:http' (invalid port)".to_string())
    );
    assert_eq!(
        parse_endpoint("host:65536"),
        Err("invalid address 'host:65536' (invalid port)".to_string())
    );
    assert_eq!(
        parse_endpoint("host:-1"),
        Err("invalid address 'host:-1' (invalid port)".to_string())
    );
    assert_eq!(
        parse_endpoint("host:0"),
        Err("invalid address 'host:0' (port out of range)".to_string())
    );
    assert_eq!(
        parse_endpoint("host:000"),
        Err("invalid address 'host:000' (port out of range)".to_string())
    );
}

#[test]
fn endpoints_agree_with_a_plain_reading() {
    fn reference(s: &str) -> Result<String, String> {
        let s = s.trim();
        let (host, port_str) = s
            .rsplit_once(':')
            .ok_or_else(|| format!("invalid address '{s}' (expected host:port)"))?;
        if host.trim().is_empty() {
            return Err(format!("invalid address '{s}' (empty host)"));
        }
        let port: u16 = port_str
            .parse()
            .map_err(|_| format!("invalid address '{s}' (invalid port)"))?;
        if port == 0 {
            return Err(format!("invalid address '{s}' (port out of range)"));
        }
        Ok(format!("{}:{port}", host.trim()))
    }
    for s in [
        "", ":", "::", "a:1", " a : 1 ", "a:1 ", "a:01", "a:65535", "a:65536", "a:99999999999",
        "a:+", "a:+0", "a:1:", ":1", " \u{a0}x\u{3000}:22 ", "é:443", "h:٣", "h:1_0", "h:0x10",
    ] {
        assert_eq!(parse_endpoint(s), reference(s), "{s:?}");
    }
}

#[test]
fn counts_with_commas() {
    assert_eq!(format_with_commas(0), "0");
    assert_eq!(format_with_commas(7), "7");
    assert_eq!(format_with_commas(999), "999");
    assert_eq!(format_with_commas(1000), "1,000");
    assert_eq!(format_with_commas(1001), "1,001");
    assert_eq!(format_with_commas(12345), "12,345");
    assert_eq!(format_with_commas(100000), "100,000");
    assert_eq!(format_with_commas(1234567), "1,234,567");
    assert_eq!(format_with_commas(1000000000), "1,000,000,000");
    assert_eq!(format_with_commas(u64::MAX), "18,446,744,073,709,551,615");
}

#[test]
fn numeric_options() {
    assert_eq!(parse_usize_opt("--top", "10"), Ok(10));
    assert_eq!(parse_usize_opt("--top", "0"), Ok(0));
    assert_eq!(parse_usize_opt("--top", "+3"), Ok(3));
    assert_eq!(parse_usize_opt("--min-length", "007"), Ok(7));
    assert_eq!(
        parse_usize_opt("--top", "ten"),
        Err("Error: --top expects a non-negative integer, got 'ten'".to_string())
    );
    assert_eq!(
        parse_usize_opt("--min-length", "-1"),
        Err("Error: --min-length expects a non-negative integer, got '-1'".to_string())
    );
    assert_eq!(
        parse_usize_opt("--top", " 5"),
        Err("Error: --top expects a non-negative integer, got ' 5'".to_string())
    );
    assert_eq!(
        parse_usize_opt("--top", ""),
        Err("Error: --top expects a non-negative integer, got ''".to_string())
    );
    assert_eq!(
        parse_usize_opt("--top", "99999999999999999999999999"),
        Err(
            "Error: --top expects a non-negative integer, got '99999999999999999999999999'"
                .to_string()
        )
    );
    assert_eq!(parse_usize_opt("--top", &usize::MAX.to_string()), Ok(usize::MAX));
}
