use audioleaf::color::{hwb_to_rgb8, Hwb, UNIT};
use audioleaf::config::{Axis, Sort};
use audioleaf::nanoleaf::{
    api_endpoint, api_url, parse_layout_response, parse_name_response, parse_pairing_response,
    stream_mode_body, Command, Nanoleaf, Panel,
};
use audioleaf::CoreError;

fn device() -> Nanoleaf {
    Nanoleaf::new(
        String::from("office"),
        vec![
            Panel { id: 100, x: 10, y: 5 },
            Panel { id: 200, x: 10, y: 0 },
            Panel { id: 300, x: 0, y: 5 },
        ],
    )
}

#[test]
fn panels_sort_by_y_then_x_ascending() {
    let mut nl = device();
    nl.sort_panels(Axis::Y, Sort::Asc, Sort::Asc);
    let coords: Vec<(i16, i16)> = nl.panels.iter().map(|p| (p.x, p.y)).collect();
    assert_eq!(coords, vec![(10, 0), (0, 5), (10, 5)]);
}

#[test]
fn panels_sort_by_x_descending_then_y() {
    let mut nl = device();
    nl.sort_panels(Axis::X, Sort::Desc, Sort::Asc);
    let coords: Vec<(i16, i16)> = nl.panels.iter().map(|p| (p.x, p.y)).collect();
    assert_eq!(coords, vec![(10, 0), (10, 5), (0, 5)]);
}

#[test]
fn panels_with_equal_coordinates_keep_arrival_order() {
    let mut nl = Nanoleaf::new(
        String::from("office"),
        vec![
            Panel { id: 7, x: 3, y: 3 },
            Panel { id: 8, x: 3, y: 3 },
            Panel { id: 6, x: 0, y: 0 },
        ],
    );
    nl.sort_panels(Axis::Y, Sort::Asc, Sort::Asc);
    let ids: Vec<u16> = nl.panels.iter().map(|p| p.id).collect();
    assert_eq!(ids, vec![6, 7, 8]);
}

#[test]
fn two_panel_frame_encodes_exactly() {
    let nl = device();
    let red = Hwb { hue: 0, whiteness: 0, blackness: 0 };
    let blue = Hwb { hue: 240, whiteness: 0, blackness: 0 };
    let commands = vec![
        Command { panel_no: 1, color: red, transition_time: 2 },
        Command { panel_no: 2, color: blue, transition_time: 2 },
    ];
    let buf = nl.run_commands_bytes(&commands).unwrap();
    assert_eq!(buf.len(), 18);
    assert_eq!(&buf[0..2], &[0, 2]);
    // First panel: device id 100 big-endian, pure red, reserved 0, time 2.
    assert_eq!(&buf[2..4], &[0, 100]);
    assert_eq!(&buf[4..7], &[255, 0, 0]);
    assert_eq!(buf[7], 0);
    assert_eq!(buf[8], 0);
    assert_eq!(buf[9], 2);
    // Second panel: device id 200, pure blue.
    assert_eq!(&buf[10..12], &[0, 200]);
    assert_eq!(&buf[12..15], &[0, 0, 255]);
    assert_eq!(&buf[15..18], &[0, 0, 2]);
}

#[test]
fn out_of_range_display_index_is_a_contract_error() {
    let nl = device();
    let c = Hwb { hue: 0, whiteness: 0, blackness: 0 };
    let zero = vec![Command { panel_no: 0, color: c, transition_time: 1 }];
    assert_eq!(nl.run_commands_bytes(&zero), Err(CoreError::Contract));
    let high = vec![Command { panel_no: 4, color: c, transition_time: 1 }];
    assert_eq!(nl.run_commands_bytes(&high), Err(CoreError::Contract));
}

#[test]
fn hwb_converts_to_rgb() {
    assert_eq!(hwb_to_rgb8(&Hwb { hue: 0, whiteness: 0, blackness: 0 }), (255, 0, 0));
    assert_eq!(hwb_to_rgb8(&Hwb { hue: 120, whiteness: 0, blackness: 0 }), (0, 255, 0));
    assert_eq!(hwb_to_rgb8(&Hwb { hue: 240, whiteness: 0, blackness: 0 }), (0, 0, 255));
    // Fully white washes out every hue.
    assert_eq!(hwb_to_rgb8(&Hwb { hue: 37, whiteness: UNIT, blackness: 0 }), (255, 255, 255));
    // Fully black swallows every hue.
    assert_eq!(hwb_to_rgb8(&Hwb { hue: 300, whiteness: 0, blackness: UNIT }), (0, 0, 0));
}

#[test]
fn pairing_reply_token_is_extracted_and_trimmed() {
    let body = "{\"auth_token\": \"AbCd012345\\n\"}";
    let token = parse_pairing_response(body).unwrap();
    assert_eq!(token, "AbCd012345");
    assert!(parse_pairing_response("{}").is_none());
    assert!(parse_pairing_response("not json").is_none());
}

#[test]
fn device_info_reply_name_is_extracted() {
    let body = "{\"name\": \"Canvas 1234\", \"serialNo\": \"x\"}";
    assert_eq!(parse_name_response(body).unwrap(), "Canvas 1234");
    assert!(parse_name_response("{\"other\": 1}").is_none());
}

#[test]
fn layout_reply_panels_are_extracted() {
    let body = "{\"positionData\": [ {\"panelId\": 5, \"x\": 10, \"y\": -3}, {\"panelId\": 9, \"x\": 0, \"y\": 7} ]}";
    let panels = parse_layout_response(body).unwrap();
    assert_eq!(panels.len(), 2);
    assert_eq!(panels[0], Panel { id: 5, x: 10, y: -3 });
    assert_eq!(panels[1], Panel { id: 9, x: 0, y: 7 });
    assert!(parse_layout_response("{\"positionData\": 3}").is_none());
}

#[test]
fn api_urls_have_the_documented_shape() {
    assert_eq!(api_url("192.168.0.10", "new", ""), "http://192.168.0.10:16021/api/v1/new");
    assert_eq!(
        api_url("192.168.0.10", "tok", "/panelLayout/layout"),
        "http://192.168.0.10:16021/api/v1/tok/panelLayout/layout"
    );
    assert!(api_endpoint("192.168.0.10", "tok", "/effects").is_some());
}

#[test]
fn stream_mode_body_requests_external_control() {
    let body = stream_mode_body();
    let v: serde_json::Value = serde_json::from_str(&body).unwrap();
    assert_eq!(v["write"]["command"], "display");
    assert_eq!(v["write"]["animType"], "extControl");
    assert_eq!(v["write"]["extControlVersion"], "v2");
}
