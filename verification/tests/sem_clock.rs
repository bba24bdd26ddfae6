use shm_queue::clock::{current_ticks, ticks_between, unix_timestamp, year_one_unix_seconds};
use shm_queue::sem::{
    create_sem, create_sem_on, host_platform, platform_for_separator, sem_name, sem_name_prefix,
    sem_request, Platform,
};

#[test]
fn create_basic() {
    create_sem("taco").unwrap();
}

#[test]
fn prefixes_per_platform() {
    assert_eq!(sem_name_prefix(Platform::Windows), r"Global\CT.IP.");
    assert_eq!(sem_name_prefix(Platform::Linux), r"/ct.ip.");
}

#[test]
fn sem_name_joins_prefix_and_name() {
    assert_eq!(sem_name(Platform::Linux, "TEST2"), "/ct.ip.TEST2");
    assert_eq!(sem_name(Platform::Windows, "q"), r"Global\CT.IP.q");
}

#[test]
fn semaphore_name_with_nul_is_refused() {
    assert!(create_sem("a\0b").is_err());
}

#[test]
fn ticks_count_hundreds_of_nanoseconds_since_the_epoch() {
    let year_one = -62_135_596_800;
    assert_eq!(ticks_between(year_one, 0, 0), Some(621_355_968_000_000_000));
    assert_eq!(ticks_between(year_one, 1, 350), Some(621_355_968_010_000_003));
    assert_eq!(ticks_between(year_one, 0, 999_999_999), Some(621_355_968_009_999_999));
    assert_eq!(ticks_between(10, 10, 99), Some(0));
}

#[test]
fn ticks_before_the_epoch_or_beyond_a_u64_are_refused() {
    assert_eq!(ticks_between(10, 9, 999_999_999), None);
    assert_eq!(ticks_between(i64::MIN, i64::MAX, 0), None);
    // the last second whose ticks still fit
    let last = (u64::MAX / 10_000_000) as i64;
    assert!(ticks_between(0, last, 0).is_some());
    assert_eq!(ticks_between(0, last + 1, 0), None);
}

#[test]
fn unix_timestamps_round_down_to_whole_seconds() {
    assert_eq!(unix_timestamp(true, 5, 300), Some((5, 300)));
    assert_eq!(unix_timestamp(false, 5, 300), Some((-6, 999_999_700)));
    assert_eq!(unix_timestamp(false, 5, 0), Some((-5, 0)));
    assert_eq!(unix_timestamp(false, 1u64 << 63, 0), Some((i64::MIN, 0)));
    assert_eq!(unix_timestamp(false, 1u64 << 63, 1), None);
    assert_eq!(unix_timestamp(true, 1u64 << 63, 0), None);
}

#[test]
fn year_one_lies_719162_days_before_the_unix_epoch() {
    assert_eq!(year_one_unix_seconds(), Some(-719_162 * 86_400));
    let year_one = chrono::NaiveDate::from_ymd_opt(1, 1, 1).unwrap();
    let unix_epoch = chrono::NaiveDate::from_ymd_opt(1970, 1, 1).unwrap();
    assert_eq!(
        year_one_unix_seconds(),
        Some(-unix_epoch.signed_duration_since(year_one).num_seconds())
    );
}

#[test]
fn platform_follows_the_path_separator() {
    assert_eq!(platform_for_separator('\\'), Platform::Windows);
    assert_eq!(platform_for_separator('/'), Platform::Linux);
}

#[test]
fn semaphore_request_of_a_queue() {
    let request = sem_request(Platform::Linux, "TEST2");
    assert_eq!(request.name, "/ct.ip.TEST2");
    assert_eq!(request.initial_value, 0);
    assert_eq!(request.max_value, i32::MAX as u32);
    let request = sem_request(Platform::Windows, "q");
    assert_eq!(request.name, r"Global\CT.IP.q");
}

#[test]
fn semaphore_on_the_host_platform() {
    assert!(create_sem_on(host_platform(), "TEST_ON_HOST").is_ok());
}

#[test]
fn current_ticks_match_chrono() {
    let epoch = chrono::NaiveDate::from_ymd_opt(1, 1, 1)
        .unwrap()
        .and_hms_opt(0, 0, 0)
        .unwrap()
        .and_utc();
    let before = chrono::Utc::now().signed_duration_since(epoch);
    let ticks = current_ticks().unwrap();
    let after = chrono::Utc::now().signed_duration_since(epoch);
    let to_ticks = |d: chrono::TimeDelta| d.num_seconds() as u64 * 10_000_000 + d.subsec_nanos() as u64 / 100;
    assert!(to_ticks(before) <= ticks && ticks <= to_ticks(after));
}

#[test]
fn current_ticks_are_after_the_year_2020() {
    // 2020-01-01 is 63_713_433_600 seconds after 0001-01-01
    assert!(current_ticks().unwrap() > 637_134_336_000_000_000);
}

#[test]
fn host_platform_of_this_build() {
    let expected = if std::path::MAIN_SEPARATOR == '\\' { Platform::Windows } else { Platform::Linux };
    assert_eq!(host_platform(), expected);
}
