//! Wire schema: canonical JSON encodings and their parsers.

use terminal_remote::wire::{
    ControlMessage, control_json_bytes, parse_control_message, Registration,
    registration_json_bytes, parse_registration_bytes,
};

#[test]
fn control_input_exact_bytes() {
    let m = ControlMessage::Input { data: vec![104, 105, 10] };
    let j = control_json_bytes(&m);
    assert_eq!(j, b"{\"type\":\"input\",\"data\":[104,105,10]}".to_vec());
}

#[test]
fn control_resize_exact_bytes() {
    let m = ControlMessage::Resize { cols: 120, rows: 40 };
    let j = control_json_bytes(&m);
    assert_eq!(j, b"{\"type\":\"resize\",\"cols\":120,\"rows\":40}".to_vec());
}

#[test]
fn control_close_exact_bytes() {
    let j = control_json_bytes(&ControlMessage::Close);
    assert_eq!(j, b"{\"type\":\"close\"}".to_vec());
}

#[test]
fn control_round_trips() {
    let cases = vec![
        ControlMessage::Input { data: vec![] },
        ControlMessage::Input { data: vec![0] },
        ControlMessage::Input { data: (0..=255).collect() },
        ControlMessage::Resize { cols: 0, rows: 0 },
        ControlMessage::Resize { cols: 65535, rows: 1 },
        ControlMessage::Close,
    ];
    for m in cases {
        let j = control_json_bytes(&m);
        match (parse_control_message(&j), &m) {
            (Some(ControlMessage::Input { data }), ControlMessage::Input { data: d0 }) => {
                assert_eq!(&data, d0)
            }
            (
                Some(ControlMessage::Resize { cols, rows }),
                ControlMessage::Resize { cols: c0, rows: r0 },
            ) => {
                assert_eq!(cols, *c0);
                assert_eq!(rows, *r0);
            }
            (Some(ControlMessage::Close), ControlMessage::Close) => {}
            (got, want) => panic!("round trip broke: {:?} from {:?}", got, want),
        }
    }
}

#[test]
fn control_rejects_noise() {
    assert!(parse_control_message(&b"hello".to_vec()).is_none());
    assert!(parse_control_message(&b"{\"type\":\"open\"}".to_vec()).is_none());
    assert!(parse_control_message(&b"{\"type\":\"input\",\"data\":[300]}".to_vec()).is_none());
    assert!(parse_control_message(&b"{\"type\":\"resize\",\"cols\":70000,\"rows\":1}".to_vec()).is_none());
    assert!(parse_control_message(&b"".to_vec()).is_none());
}

#[test]
fn registration_exact_bytes() {
    let reg = Registration {
        name: b"zsh - /home/u/project".to_vec(),
        shell: b"zsh".to_vec(),
        pid: 4242,
        tty: b"/dev/ttys003".to_vec(),
        proxy_version: 1,
    };
    let j = registration_json_bytes(&reg);
    assert_eq!(
        j,
        b"{\"name\":\"zsh - /home/u/project\",\"shell\":\"zsh\",\"pid\":4242,\"tty\":\"/dev/ttys003\",\"proxy_version\":1}".to_vec()
    );
}

#[test]
fn registration_round_trip_with_escapes() {
    let reg = Registration {
        name: b"odd \"name\" with \\ and \n tab\t".to_vec(),
        shell: b"bash".to_vec(),
        pid: u32::MAX,
        tty: b"/dev/pts/1".to_vec(),
        proxy_version: 255,
    };
    let j = registration_json_bytes(&reg);
    let back = parse_registration_bytes(&j).expect("canonical form parses");
    assert_eq!(back.name, reg.name);
    assert_eq!(back.shell, reg.shell);
    assert_eq!(back.pid, reg.pid);
    assert_eq!(back.tty, reg.tty);
    assert_eq!(back.proxy_version, reg.proxy_version);
}

#[test]
fn registration_escaping_is_json() {
    let reg = Registration {
        name: b"a\"b\\c\x01d".to_vec(),
        shell: b"sh".to_vec(),
        pid: 1,
        tty: b"t".to_vec(),
        proxy_version: 1,
    };
    let j = registration_json_bytes(&reg);
    let s = String::from_utf8(j).unwrap();
    assert!(s.contains("a\\\"b\\\\c\\u0001d"));
}

#[test]
fn registration_rejects_malformed() {
    assert!(parse_registration_bytes(&b"{}".to_vec()).is_none());
    assert!(parse_registration_bytes(&b"{\"name\":\"x\"}".to_vec()).is_none());
    assert!(
        parse_registration_bytes(
            &b"{\"name\":\"x\",\"shell\":\"s\",\"pid\":1,\"tty\":\"t\",\"proxy_version\":256}".to_vec()
        )
        .is_none()
    );
}
