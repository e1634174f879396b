use nvim_bridge::input::Outgoing;
use nvim_bridge::subscriptions::{decimal, is_subscription, Subscription, Subscriptions};
use nvim_bridge::value::Value;

fn sub_text(s: &str) -> Value {
    Value::Str(s.as_bytes().to_vec())
}

fn sub_make(event: &str, pattern: &str, args: &[&str]) -> Subscription {
    Subscription {
        event: event.as_bytes().to_vec(),
        pattern: pattern.as_bytes().to_vec(),
        args: args.iter().map(|a| a.as_bytes().to_vec()).collect(),
    }
}

fn sub_command(subs: &Subscriptions, index: usize, channel: u64) -> Option<String> {
    match subs.autocmd(index, channel) {
        Some(Outgoing::Notify { method, params }) => {
            assert_eq!(method, b"nvim_command".to_vec());
            assert_eq!(params.len(), 1);
            match &params[0] {
                Value::Str(bytes) => Some(String::from_utf8(bytes.clone()).unwrap()),
                _ => panic!("the command is a string"),
            }
        }
        Some(_) => panic!("the command is sent as a notification"),
        None => None,
    }
}

#[test]
fn numbers_are_written_in_decimal() {
    assert_eq!(decimal(0), b"0".to_vec());
    assert_eq!(decimal(7), b"7".to_vec());
    assert_eq!(decimal(10), b"10".to_vec());
    assert_eq!(decimal(1234567890), b"1234567890".to_vec());
    assert_eq!(decimal(u64::MAX), b"18446744073709551615".to_vec());
}

#[test]
fn a_subscription_is_entered_with_one_command() {
    let mut subs = Subscriptions::new();
    assert_eq!(subs.subscribe(sub_make("BufEnter", "*", &[])), 0);
    assert_eq!(subs.subscribe(sub_make("CursorMoved", "*.rs", &["line('.')", "col('.')"])), 1);
    assert_eq!(subs.count(), 2);
    assert_eq!(
        sub_command(&subs, 0, 1),
        Some("autocmd BufEnter * call rpcnotify(1, 'subscription', 0)".to_string())
    );
    assert_eq!(
        sub_command(&subs, 1, 12),
        Some(
            "autocmd CursorMoved *.rs call rpcnotify(12, 'subscription', 1, line('.'), col('.'))"
                .to_string()
        )
    );
    assert_eq!(sub_command(&subs, 2, 1), None);
}

#[test]
fn a_notification_goes_to_the_subscription_of_its_index() {
    let mut subs = Subscriptions::new();
    subs.subscribe(sub_make("BufEnter", "*", &[]));
    subs.subscribe(sub_make("ModeChanged", "*", &["mode()"]));
    assert_eq!(subs.route(&vec![Value::UInt(1), sub_text("i")]), Some((1, vec![b"i".to_vec()])));
    assert_eq!(subs.route(&vec![Value::UInt(0)]), Some((0, vec![])));
    assert_eq!(
        subs.route(&vec![Value::Int(0), sub_text("a"), sub_text("")]),
        Some((0, vec![b"a".to_vec(), vec![]]))
    );
}

#[test]
fn a_notification_of_another_shape_goes_nowhere() {
    let mut subs = Subscriptions::new();
    subs.subscribe(sub_make("BufEnter", "*", &[]));
    assert_eq!(subs.route(&vec![]), None);
    assert_eq!(subs.route(&vec![Value::UInt(1)]), None);
    assert_eq!(subs.route(&vec![Value::Int(-1)]), None);
    assert_eq!(subs.route(&vec![sub_text("0")]), None);
    assert_eq!(subs.route(&vec![Value::UInt(0), Value::UInt(5)]), None);
    assert_eq!(subs.route(&vec![Value::UInt(0), sub_text("a"), Value::Nil]), None);
    assert_eq!(Subscriptions::new().route(&vec![Value::UInt(0)]), None);
}

#[test]
fn the_notification_of_a_subscription_is_known_by_its_method() {
    assert!(is_subscription(&b"subscription".to_vec()));
    assert!(!is_subscription(&b"redraw".to_vec()));
}
