use subwash::calendar::format_expire;
use subwash::model::SubscriptionTraffic;
use subwash::traffic::format_bytes_gib;
use subwash::traffic::format_traffic_label;
use subwash::traffic::parse_subscription_userinfo;

fn traffic(
    upload: Option<u64>,
    download: Option<u64>,
    total: Option<u64>,
    expire: Option<i64>,
) -> SubscriptionTraffic {
    SubscriptionTraffic { upload, download, total, expire }
}

const GIB: u64 = 1024 * 1024 * 1024;

#[test]
fn parse_subscription_userinfo_basic() {
    let t = parse_subscription_userinfo(
        "upload=1073741824; download=2147483648; total=10737418240; expire=1893456000",
    )
    .expect("should parse");
    assert_eq!(t.upload, Some(1073741824));
    assert_eq!(t.download, Some(2147483648));
    assert_eq!(t.total, Some(10737418240));
    assert_eq!(t.expire, Some(1893456000));
    assert_eq!(format_expire(1893456000), "2030-01-01");

    let label = format_traffic_label("provider-a", &t);
    assert!(label.contains("provider-a"));
    assert!(label.contains("到期"));
    assert!(label.contains('%'));

    assert!(parse_subscription_userinfo("").is_none());
    assert!(parse_subscription_userinfo("foo=bar").is_none());
}

#[test]
fn blanks_do_not_matter() {
    let plain = parse_subscription_userinfo("upload=1;download=2;total=3;expire=4");
    let spaced =
        parse_subscription_userinfo("\t upload =\u{3000}1 ;; download= 2\n;total  =3  ; expire=4 ; ");
    assert_eq!(plain, Some(traffic(Some(1), Some(2), Some(3), Some(4))));
    assert_eq!(plain, spaced);
}

#[test]
fn unknown_and_unreadable_parts_are_passed_over() {
    let t = parse_subscription_userinfo("upload=x; download=7; total; Total=9; expire=-5; a=b=c");
    assert_eq!(t, Some(traffic(None, Some(7), None, Some(-5))));
    assert_eq!(parse_subscription_userinfo("upload=-1"), None);
    assert_eq!(parse_subscription_userinfo("upload=1=2"), None);
    assert_eq!(parse_subscription_userinfo("upload="), None);
    assert_eq!(parse_subscription_userinfo(";;;"), None);
}

#[test]
fn the_last_readable_value_counts() {
    let t = parse_subscription_userinfo("total=1; total=2; total=zz");
    assert_eq!(t, Some(traffic(None, None, Some(2), None)));
}

#[test]
fn the_largest_numbers_are_read() {
    let t = parse_subscription_userinfo(
        "upload=18446744073709551615; download=18446744073709551616; expire=9223372036854775807",
    );
    assert_eq!(t, Some(traffic(Some(u64::MAX), None, None, Some(i64::MAX))));
    let t = parse_subscription_userinfo("expire=-9223372036854775808; total=+0012");
    assert_eq!(t, Some(traffic(None, None, Some(12), Some(i64::MIN))));
    assert_eq!(parse_subscription_userinfo("expire=9223372036854775808"), None);
}

#[test]
fn sizes_have_two_decimals() {
    assert_eq!(format_bytes_gib(0), "0.00GB");
    assert_eq!(format_bytes_gib(GIB), "1.00GB");
    assert_eq!(format_bytes_gib(GIB * 3 / 2), "1.50GB");
    assert_eq!(format_bytes_gib(10737418240), "10.00GB");
    assert_eq!(format_bytes_gib(u64::MAX), "17179869184.00GB");
    // An eighth and three eighths are exact, so they lie in the middle and go to the even side.
    assert_eq!(format_bytes_gib(GIB / 8), "0.12GB");
    assert_eq!(format_bytes_gib(GIB * 3 / 8), "0.38GB");
}

#[test]
fn labels_say_what_is_known() {
    let all = traffic(Some(GIB), Some(2 * GIB), Some(10 * GIB), Some(1893456000));
    assert_eq!(
        format_traffic_label("provider-a", &all),
        "provider-a | 3.00GB/10.00GB (30%) | 到期 2030-01-01"
    );
    assert_eq!(
        format_traffic_label("a", &traffic(Some(GIB), None, Some(0), None)),
        "a | 1.00GB/?"
    );
    assert_eq!(
        format_traffic_label("a", &traffic(None, Some(GIB), None, Some(0))),
        "a | 1.00GB used | 到期 永久"
    );
    assert_eq!(
        format_traffic_label("", &traffic(None, None, None, Some(-1))),
        " | 流量未知 | 到期 永久"
    );
    assert_eq!(format_traffic_label("a", &traffic(None, None, None, None)), "a | 流量未知");
    assert_eq!(
        format_traffic_label("a", &traffic(None, None, Some(GIB), None)),
        "a | 0.00GB/1.00GB (0%)"
    );
}

#[test]
fn used_traffic_does_not_overflow() {
    assert_eq!(
        format_traffic_label("a", &traffic(Some(u64::MAX), Some(5), Some(1), None)),
        "a | 17179869184.00GB/0.00GB (999%)"
    );
}

#[test]
fn labels_agree_with_floating_point() {
    let size = |bytes: u64| format!("{:.2}GB", bytes as f64 / (1024.0 * 1024.0 * 1024.0));
    let mut seed: u64 = 99;
    let mut next = || {
        seed = seed.wrapping_mul(6364136223846793005).wrapping_add(1442695040888963407);
        let high = seed >> 8;
        high.wrapping_mul(0x9E37_79B9_7F4A_7C15) >> (seed % 61)
    };
    for _ in 0..20000 {
        let upload = next();
        let download = next();
        let total = next().max(1);
        let used = upload.saturating_add(download);
        let share = (used as f64 / total as f64 * 100.0).clamp(0.0, 999.0);
        assert_eq!(
            format_traffic_label("n", &traffic(Some(upload), Some(download), Some(total), None)),
            format!("n | {}/{} ({:.0}%)", size(used), size(total), share)
        );
    }
}
