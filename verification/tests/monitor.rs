use wetdet::alarm::{alarm_time_ms, Alarm};
use wetdet::basic;
use wetdet::config::{ALARM_OFF_TIME, ALARM_ON_TIME, OFF_SEC_THRES, PERCENT};
use wetdet::envsensor::{EnvSensorResult, Fault, SensorCheck, Verdict, NUM_SKIP};
use wetdet::errordeb::ErrorDeb;
use wetdet::logentry::{AlarmState, LogEntry, LOG_ENTRY_VALID};
use wetdet::measlog;
use wetdet::statemachine::{StateMachine, MEAS_LEN, MEAS_MIN_FILL};
use wetdet::util::min;

#[test]
fn min_picks_smaller() {
    assert_eq!(min(3, 7), 3);
    assert_eq!(min(7, 3), 3);
    assert_eq!(min(120, 10), 10);
}

#[test]
fn alarm_times_round_up() {
    assert_eq!(alarm_time_ms(700), 7);
    assert_eq!(alarm_time_ms(3000), 30);
    assert_eq!(alarm_time_ms(0), 0);
    assert_eq!(alarm_time_ms(1), 1);
    assert_eq!(alarm_time_ms(101), 2);
    assert_eq!(ALARM_ON_TIME, alarm_time_ms(700));
    assert_eq!(ALARM_OFF_TIME, alarm_time_ms(3000));
}

#[test]
fn alarm_blinks_while_active() {
    let mut a = Alarm::new();
    assert!(!a.run_100ms());
    assert!(a.activate(true));
    assert!(!a.activate(true));
    let mut levels = Vec::new();
    for _ in 0..(2 * (ALARM_ON_TIME + ALARM_OFF_TIME)) {
        levels.push(a.run_100ms());
    }
    let period = (ALARM_ON_TIME + ALARM_OFF_TIME) as usize;
    for (i, high) in levels.iter().enumerate() {
        assert_eq!(*high, (i % period) < ALARM_ON_TIME as usize, "step {}", i);
    }
    assert!(a.activate(false));
    assert!(!a.run_100ms());
}

#[test]
fn basic_alarm_blinks_while_active() {
    let mut a = basic::alarm::Alarm::new();
    a.activate(true);
    let levels: Vec<bool> = (0..74).map(|_| a.run_100ms()).collect();
    for (i, high) in levels.iter().enumerate() {
        assert_eq!(*high, i % 37 < 7, "step {}", i);
    }
    a.activate(false);
    assert!(!a.run_100ms());
}

#[test]
fn debounce_trips_after_limit_errors() {
    let mut d: ErrorDeb<3, 5> = ErrorDeb::new();
    assert!(d.is_ok());
    for _ in 0..4 {
        assert!(!d.error());
    }
    assert!(d.error());
    // Count 15 of 15: one success brings it below the limit again.
    assert!(d.ok());
    assert!(d.is_ok());
    // Count 14 + 3: persistent again.
    assert!(d.error());
    // Three successes make up for one error.
    assert!(!d.ok());
    assert!(!d.ok());
    assert!(d.ok());
}

#[test]
fn debounce_saturates() {
    let mut d: ErrorDeb<100, 2> = ErrorDeb::new();
    assert!(!d.error());
    assert!(d.error());
    assert!(d.error());
    // Saturated at 255: 56 successes bring it below 200.
    for _ in 0..55 {
        assert!(!d.ok());
    }
    assert!(d.ok());
}

fn reading(temp_c: i32, pres_hpa: u32, rel_hum: u32) -> EnvSensorResult {
    EnvSensorResult { temp_c, pres_hpa, rel_hum }
}

#[test]
fn sensor_skips_first_readings() {
    let mut c = SensorCheck::new();
    for _ in 0..NUM_SKIP {
        assert!(!c.begin_read());
    }
    assert!(c.begin_read());
    assert!(c.begin_read());
}

#[test]
fn sensor_refuses_implausible_readings() {
    let mut c = SensorCheck::new();
    let good = reading(21_500, 1_013_000, 450_000);
    assert!(matches!(c.check(good), Verdict::Accept(r) if r.rel_hum == 450_000));
    assert!(matches!(c.check(reading(-41_000, 1_013_000, 0)), Verdict::Reject(Fault::Temperature)));
    assert!(matches!(c.check(reading(20_000, 800_000, 0)), Verdict::Reject(Fault::Pressure)));
    assert!(matches!(c.check(reading(20_000, 1_000_000, 1_000_001)), Verdict::Reject(Fault::Humidity)));
    assert!(matches!(c.check(reading(90_000, 1_000_000, 0)), Verdict::Reject(Fault::Temperature)));
    // Fifth error in a row: persistent.
    assert!(matches!(c.check(reading(90_000, 1_000_000, 0)), Verdict::Fatal(Fault::Temperature)));
}

#[test]
fn sensor_sample_error_skips_again() {
    let mut c = SensorCheck::new();
    while !c.begin_read() {}
    assert!(matches!(c.read_failed(true), Verdict::Reject(Fault::Read)));
    assert!(!c.begin_read());
    assert!(!c.begin_read());
    assert!(c.begin_read());
    assert!(matches!(c.read_failed(false), Verdict::Reject(Fault::Read)));
    assert!(c.begin_read());
}

#[test]
fn log_entries_carry_marker() {
    let e = LogEntry::new(1, 2, 21_500, 1_013_000, 450, AlarmState::OnStThres);
    assert!(e.is_valid());
    assert_eq!(e.valid_word(), LOG_ENTRY_VALID);
    assert_eq!(e.alarm, AlarmState::OnStThres);
    let bad = LogEntry::from_parts(0, 1, 2, 3, 4, 5, AlarmState::Off);
    assert!(!bad.is_valid());
    assert_eq!(LogEntry::max_size(), 255);
    let m = measlog::LogEntry::new(1, 2, 3, 4, 5);
    assert!(m.is_valid());
    assert_eq!(m.rel_hum, 5);
    assert!(!measlog::LogEntry::from_parts(7, 1, 2, 3, 4, 5).is_valid());
}

fn feed(sm: &mut StateMachine, rel_hum: u32) -> wetdet::statemachine::Evaluation {
    sm.feed_env_1000ms(rel_hum);
    sm.evaluate_1000ms()
}

#[test]
fn state_machine_waits_for_minimum_fill() {
    let mut sm = StateMachine::new();
    for i in 0..(MEAS_MIN_FILL - 1) {
        let e = feed(&mut sm, 95 * PERCENT);
        assert!(!e.evaluated, "evaluation {}", i);
        assert_eq!(sm.alarm_state(), AlarmState::Off);
    }
    let e = feed(&mut sm, 95 * PERCENT);
    assert!(e.just_filled);
    assert!(e.evaluated);
    assert_eq!(sm.alarm_state(), AlarmState::OnThres);
}

#[test]
fn state_machine_triggers_on_short_term_rise() {
    let mut sm = StateMachine::new();
    for _ in 0..MEAS_MIN_FILL {
        feed(&mut sm, 40 * PERCENT);
    }
    assert_eq!(sm.alarm_state(), AlarmState::Off);
    let e = feed(&mut sm, 46 * PERCENT);
    assert_eq!(e.d_hum_st, 6 * PERCENT as i64);
    assert_eq!(sm.alarm_state(), AlarmState::OnStThres);
}

#[test]
fn state_machine_turns_off_after_quiet_period() {
    let mut sm = StateMachine::new();
    for _ in 0..MEAS_MIN_FILL {
        feed(&mut sm, 80 * PERCENT);
    }
    assert_eq!(sm.alarm_state(), AlarmState::OnThres);
    // Fill the short-term buffer with low values so that no rise remains.
    for _ in 0..MEAS_LEN {
        feed(&mut sm, 60 * PERCENT);
    }
    // Mid-band: the alarm stays on.
    assert_eq!(sm.alarm_state(), AlarmState::OnThres);
    // The first OFF_SEC_THRES low readings count up, the next turns it off.
    let mut evaluations = 0;
    while sm.alarm_state() != AlarmState::Off {
        feed(&mut sm, 40 * PERCENT);
        evaluations += 1;
        assert!(evaluations <= OFF_SEC_THRES + 1);
    }
    assert_eq!(evaluations, OFF_SEC_THRES + 1);
}

#[test]
fn basic_state_machine_triggers_and_clears() {
    let mut sm = basic::statemachine::StateMachine::new();
    for _ in 0..(basic::statemachine::MEAS_LEN - 1) {
        sm.feed_env_1000ms(80 * PERCENT);
        let e = sm.evaluate_1000ms();
        assert!(!e.evaluated);
    }
    sm.feed_env_1000ms(80 * PERCENT);
    let e = sm.evaluate_1000ms();
    assert!(e.just_filled && e.evaluated);
    assert!(sm.alarm_active());
    for _ in 0..basic::statemachine::MEAS_LEN {
        sm.feed_env_1000ms(40 * PERCENT);
        sm.evaluate_1000ms();
    }
    let mut n = basic::statemachine::MEAS_LEN as u32;
    while sm.alarm_active() {
        sm.feed_env_1000ms(40 * PERCENT);
        sm.evaluate_1000ms();
        n += 1;
    }
    assert_eq!(n, OFF_SEC_THRES + 1);
}

#[test]
fn state_machine_ignores_rise_equal_to_threshold() {
    let mut sm = StateMachine::new();
    for _ in 0..MEAS_MIN_FILL {
        feed(&mut sm, 40 * PERCENT);
    }
    let e = feed(&mut sm, 45 * PERCENT);
    assert!(e.evaluated);
    assert_eq!(e.d_hum_st, 5 * PERCENT as i64);
    assert_eq!(sm.alarm_state(), AlarmState::Off);
}

#[test]
fn basic_state_machine_ignores_rise_equal_to_threshold() {
    let mut sm = basic::statemachine::StateMachine::new();
    for _ in 0..basic::statemachine::MEAS_LEN {
        sm.feed_env_1000ms(40 * PERCENT);
        sm.evaluate_1000ms();
    }
    assert!(!sm.alarm_active());
    sm.feed_env_1000ms(45 * PERCENT);
    let e = sm.evaluate_1000ms();
    assert!(e.evaluated);
    assert_eq!(e.d_hum, 5 * PERCENT as i64);
    assert!(!sm.alarm_active());
    sm.feed_env_1000ms(46 * PERCENT);
    sm.evaluate_1000ms();
    assert!(sm.alarm_active());
}

#[test]
fn basic_state_machine_restarts_off_count_at_off_threshold() {
    let mut sm = basic::statemachine::StateMachine::new();
    for _ in 0..basic::statemachine::MEAS_LEN {
        sm.feed_env_1000ms(80 * PERCENT);
    }
    sm.evaluate_1000ms();
    assert!(sm.alarm_active());
    for _ in 0..10 {
        sm.feed_env_1000ms(49 * PERCENT);
        sm.evaluate_1000ms();
    }
    sm.feed_env_1000ms(50 * PERCENT);
    sm.evaluate_1000ms();
    for _ in 0..6 {
        sm.feed_env_1000ms(49 * PERCENT);
        sm.evaluate_1000ms();
    }
    // Only the last six readings were below the off threshold in a row.
    assert!(sm.alarm_active());
    let mut n = 6;
    while sm.alarm_active() {
        sm.feed_env_1000ms(49 * PERCENT);
        sm.evaluate_1000ms();
        n += 1;
    }
    assert_eq!(n, OFF_SEC_THRES + 1);
}

#[test]
fn log_entry_from_reading_scales_and_clamps() {
    let warm = EnvSensorResult { temp_c: 21_500, pres_hpa: 1_013_000, rel_hum: 456_789 };
    let e = LogEntry::from_reading(3, 4, &warm, AlarmState::OnThres);
    assert!(e.is_valid());
    assert_eq!((e.boot_id, e.serial, e.temp_c, e.pres_hpa, e.rel_hum), (3, 4, 21_500, 1_013_000, 456));
    assert_eq!(e.alarm, AlarmState::OnThres);
    let cold = EnvSensorResult { temp_c: -5_000, pres_hpa: 990_000, rel_hum: 999 };
    let e = LogEntry::from_reading(3, 5, &cold, AlarmState::Off);
    assert_eq!((e.temp_c, e.rel_hum), (0, 0));
}
