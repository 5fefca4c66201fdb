use taqueria::numfmt::{push_digits, push_micro};
use taqueria::recipe::null::Null;
use taqueria::command::Command;
use taqueria::recipe::ParseRecipe;

fn micro(m: i64) -> String {
    let mut out = Vec::new();
    push_micro(m, &mut out);
    String::from_utf8(out).unwrap()
}

#[test]
fn digits_render_plainly() {
    let mut out = Vec::new();
    push_digits(0, &mut out);
    out.push(b',');
    push_digits(102400, &mut out);
    assert_eq!(String::from_utf8(out).unwrap(), "0,102400");
}

#[test]
fn micro_units_have_six_fraction_digits() {
    assert_eq!(micro(0), "0.000000");
    assert_eq!(micro(1), "0.000001");
    assert_eq!(micro(-1), "-0.000001");
    assert_eq!(micro(32767), "0.032767");
    assert_eq!(micro(-32768), "-0.032768");
    assert_eq!(micro(1000000), "1.000000");
    assert_eq!(micro(1234567), "1.234567");
    assert_eq!(micro(-1073741824), "-1073.741824");
}

#[test]
fn micro_text_parses_to_scaled_value() {
    for m in [0i64, 1, -1, 32767, 65535 - 65536, 500000, -999999] {
        let parsed: f64 = micro(m).parse().unwrap();
        assert_eq!(parsed, m as f64 * 1e-6);
    }
}

#[test]
fn null_decoder_applies_to_empty_paths() {
    let null = Null {};
    let empty = Command {
        command_type: 0,
        payload: ParseRecipe {
            basepath: String::from("."),
            filepath: String::new(),
            identifier: String::from("run"),
        },
    };
    assert!(null.can_parse(&empty));
    let full = Command {
        command_type: 0,
        payload: ParseRecipe {
            basepath: String::from("."),
            filepath: String::from("a.dat"),
            identifier: String::from("run"),
        },
    };
    assert!(!null.can_parse(&full));
    assert_eq!(null.identifier(), "null");
    let event = null.parse(&empty).unwrap();
    assert_eq!(event.event_type, 0);
    assert_eq!(event.payload.output, ".");
}
