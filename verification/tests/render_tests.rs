use waysn::ipc::{u32_decimal, IpcResponse};

#[test]
fn decimal_rendering() {
    assert_eq!(u32_decimal(0), "0");
    assert_eq!(u32_decimal(7), "7");
    assert_eq!(u32_decimal(10), "10");
    assert_eq!(u32_decimal(6600), "6600");
    assert_eq!(u32_decimal(4_294_967_295), "4294967295");
}

#[test]
fn render_success() {
    assert_eq!(IpcResponse::Success.render(), "Ok\n");
}

#[test]
fn render_failure() {
    let r = IpcResponse::Failure { message: "socket gone".to_string() };
    assert_eq!(r.render(), "Error: socket gone\n");
}

#[test]
fn render_temperature_report() {
    let r = IpcResponse::Temperature {
        temperatures: vec![
            ("eDP-1".to_string(), 4000, 1000),
            ("HDMI-A-1".to_string(), 6600, 1000),
        ],
    };
    assert_eq!(r.render(), "eDP-1: 4000K\nHDMI-A-1: 6600K\n");
}

#[test]
fn render_empty_report() {
    let r = IpcResponse::Temperature { temperatures: vec![] };
    assert_eq!(r.render(), "");
}
