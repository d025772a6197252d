use dm_driver_log::{TimeUnit, UsedTime, dm_provider};

const ACCESS: &str = "[INFO  - 2026-09-12 08:37:44.696] tid:34 (IsBackground-True) { B@16900fb } access Cmd:4();   [USED TIME]: 0ns;";
const SQL: &str = "[SQL   - 2026-09-12 08:55:30.193] tid:68 (IsBackground-True) { conn-2095 (sessId:281421579449976), command-4579 } ExecuteDbDataReader(CommandBehavior) [RETURN]: dateReader-2971;   [PARAMS]: Default; [SQL]: SELECT * FROM T\nWHERE ID = 1 [USED TIME]: 2ms; [EXEC_ID]: 908131301;";

/// Milliseconds of a reported duration.
fn used_ms(used: &Option<UsedTime>) -> Option<f64> {
    let used = used.as_ref()?;
    let number = used.number.parse::<f64>().ok()?;
    Some(match used.unit {
        TimeUnit::Nanos => number / 1_000_000.0,
        TimeUnit::Micros => number / 1_000.0,
        TimeUnit::Millis => number,
        TimeUnit::Seconds => number * 1_000.0,
    })
}

#[test]
fn parses_access_and_provider_ids() {
    let event = dm_provider::parse_line(ACCESS).unwrap();
    assert_eq!(event.level, "INFO");
    assert_eq!(event.thread, "IsBackground-True");
    assert_eq!(event.object_id.as_deref(), Some("16900fb"));
    assert_eq!(event.method, "access");
    assert_eq!(event.arg_types, "Cmd:4");
    assert_eq!(event.cmd, Some(4));
    assert_eq!(event.used_time_text.as_deref(), Some("0ns"));
    assert_eq!(used_ms(&event.used_time), Some(0.0));
    assert_eq!(event.category, "driver_access");
}

#[test]
fn parses_multiline_sql_and_numeric_fields() {
    let event = dm_provider::parse_line(SQL).unwrap();
    assert_eq!(event.conn_id, Some(2095));
    assert_eq!(event.session_id, Some(281421579449976));
    assert_eq!(event.command_id, Some(4579));
    assert_eq!(event.result_set_id, Some(2971));
    assert_eq!(event.params.as_deref(), Some("Default"));
    assert_eq!(event.sql.as_deref(), Some("SELECT * FROM T\nWHERE ID = 1"));
    assert_eq!(used_ms(&event.used_time), Some(2.0));
    assert_eq!(event.exec_id, Some(908131301));
    assert_eq!(event.category, "execute");
}

#[test]
fn parses_messages_and_other_methods() {
    let message = dm_provider::parse_line(
        "[INFO - 2026-09-12 08:55:30.190] tid:68 (IsBackground-True) try connect loop 0",
    )
    .unwrap();
    assert_eq!(message.method, "try connect loop 0");
    assert_eq!(message.category, "message");

    let bind = dm_provider::parse_line(
        "[INFO - 2026-09-12 08:55:30.191] tid:68 (IsBackground-True) { parameter-7 } Add(DmParameter) [RETURN]: 0; [PARAMS]: x; [USED TIME]: 500us;",
    )
    .unwrap();
    assert_eq!(bind.method, "Add");
    assert_eq!(bind.arg_types, "DmParameter");
    assert_eq!(used_ms(&bind.used_time), Some(0.5));
    assert_eq!(bind.category, "bind");
}

fn with_duration(duration: &str) -> String {
    format!(
        "[INFO - 2026-09-12 08:37:44.696] tid:34 (worker) {{ conn-3 }} access Cmd:4(); [USED TIME]: {duration};"
    )
}

#[test]
fn parses_duration_variants_bytes_and_timestamps() {
    assert_eq!(
        used_ms(&dm_provider::parse_line(&with_duration("1ms")).unwrap().used_time),
        Some(1.0)
    );
    assert_eq!(
        used_ms(&dm_provider::parse_line(&with_duration("2s")).unwrap().used_time),
        Some(2000.0)
    );
    assert_eq!(
        used_ms(&dm_provider::parse_line(&with_duration("3ns")).unwrap().used_time),
        Some(0.000003)
    );
    assert_eq!(
        used_ms(&dm_provider::parse_line(&with_duration("500us")).unwrap().used_time),
        Some(0.5)
    );
    assert_eq!(
        used_ms(&dm_provider::parse_line(&with_duration("bad")).unwrap().used_time),
        None
    );
    assert_eq!(
        used_ms(&dm_provider::parse_line(&with_duration("1m")).unwrap().used_time),
        None
    );

    let event = dm_provider::parse_bytes(ACCESS.as_bytes()).unwrap();
    assert_eq!(event.cmd, Some(4));
    assert_eq!(event.event_time_ms, Some(1_789_202_264_696));
}
