use stencil::config::Setting;
use stencil::text::{is_listed, push_decimal, same_str};
use stencil::time::{Duration, Instant, SystemTime};
use stencil::{
    enable_flame_chart_collection, enable_flame_graph_collection, limit_entry_points,
    set_flame_chart_handler, set_flame_graph_handler, SetConfigOutcome, Settings,
};

#[test]
fn a_setting_keeps_its_first_value() {
    let mut setting: Setting<String> = Setting::new();
    assert_eq!(setting.get(), None);
    assert_eq!(setting.set("one".to_string()), SetConfigOutcome::NowSet);
    assert_eq!(setting.set("two".to_string()), SetConfigOutcome::AlreadyInit);
    assert_eq!(setting.get(), Some(&"one".to_string()));
}

#[test]
fn settings_are_made_one_by_one() {
    let mut settings: Settings<u8, char> = Settings::new();
    assert!(!settings.flame_graph_enabled && !settings.flame_chart_enabled);
    enable_flame_graph_collection(&mut settings, true);
    assert!(settings.flame_graph_enabled && !settings.flame_chart_enabled);
    enable_flame_graph_collection(&mut settings, false);
    enable_flame_chart_collection(&mut settings, true);
    assert!(!settings.flame_graph_enabled && settings.flame_chart_enabled);
    assert_eq!(set_flame_graph_handler(&mut settings, 7), SetConfigOutcome::NowSet);
    assert_eq!(settings.flame_graph_handler.get(), Some(&7));
    assert_eq!(settings.flame_chart_handler.get(), None);
    assert_eq!(set_flame_chart_handler(&mut settings, 'c'), SetConfigOutcome::NowSet);
    assert_eq!(limit_entry_points(&mut settings, vec!["main"]), SetConfigOutcome::NowSet);
    assert_eq!(settings.allowed_entry_points.get(), Some(&vec!["main"]));
    assert_eq!(settings.duration_minimum.get(), None);
}

#[test]
fn strings_are_compared_by_their_characters() {
    assert!(same_str("", ""));
    assert!(same_str("größe", "größe"));
    assert!(!same_str("größe", "grösse"));
    assert!(!same_str("a", "ab"));
    assert!(is_listed(&vec!["a", "b"], "b"));
    assert!(!is_listed(&vec!["a", "b"], "c"));
}

#[test]
fn numbers_are_written_in_decimal() {
    let mut text = String::from("n=");
    push_decimal(&mut text, 0);
    push_decimal(&mut text, 7);
    push_decimal(&mut text, 10203);
    push_decimal(&mut text, u128::MAX);
    assert_eq!(text, format!("n=0710203{}", u128::MAX));
}

#[test]
fn lengths_of_time() {
    assert_eq!(Duration::from_nanos(2_999).as_micros(), 2);
    let early = SystemTime::from_nanos(-3);
    let late = SystemTime::from_nanos(4);
    assert_eq!(late.duration_since(&early), Some(Duration::from_nanos(7)));
    assert_eq!(early.duration_since(&late), None);
    assert_eq!(late.duration_since(&late), Some(Duration::from_nanos(0)));
    let first = SystemTime::from_nanos(i128::MIN);
    let last = SystemTime::from_nanos(i128::MAX);
    assert_eq!(last.duration_since(&first), Some(Duration::from_nanos(u128::MAX)));
    assert_eq!(late.delta_since(&early), SystemTime::from_nanos(7));
    assert_eq!(early.delta_since(&late), SystemTime::from_nanos(-7));
    assert_eq!(last.delta_since(&first), last);
    assert_eq!(first.delta_since(&last), first);
    let a = Instant::from_nanos(5);
    let b = Instant::from_nanos(9);
    assert_eq!(b.saturating_duration_since(&a), Duration::from_nanos(4));
    assert_eq!(a.saturating_duration_since(&b), Duration::from_nanos(0));
}
