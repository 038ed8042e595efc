use fern_proxy::frontend::{Codec, Message, Parameter};

/// Decodes startup-phase frames from `data` until the decoder stops, then
/// checks what was decoded and how many bytes are left.
fn assert_decode_startup_message(data: &[u8], expected: &[Message], remaining: usize) {
    let mut buf = data.to_vec();
    let mut decoded = Vec::new();

    let mut codec = Codec::new();
    while let Ok(Some(msg)) = codec.decode_startup_message(&mut buf) {
        decoded.push(msg);
    }

    assert_eq!(remaining, buf.len(), "remaining bytes in read buffer");
    assert_eq!(expected.len(), decoded.len(), "decoded messages");
    assert_eq!(expected, decoded, "decoded messages");
}

#[test]
fn valid_startup_message() {
    let data = [
        0, 0, 0, 78,                                                                  // total length: 78
        0, 3, 0, 0,                                                                   // protocol version: 3.0
        117, 115, 101, 114, 0,                                                        // cstr: "user\0"
        114, 111, 111, 116, 0,                                                        // cstr: "root\0"
        100, 97, 116, 97, 98, 97, 115, 101, 0,                                        // cstr: "database\0"
        116, 101, 115, 116, 100, 98, 0,                                               // cstr: "testdb\0"
        97, 112, 112, 108, 105, 99, 97, 116, 105, 111, 110, 95, 110, 97, 109, 101, 0, // cstr: "application_name\0"
        112, 115, 113, 108, 0,                                                        // cstr: "psql\0"
        99, 108, 105, 101, 110, 116, 95, 101, 110, 99, 111, 100, 105, 110, 103, 0,    // cstr: "client_encoding\0"
        85, 84, 70, 56, 0,                                                            // cstr: "UTF8\0"
        0,                                                                            // name/value pair terminator
    ];

    let expected = vec![
        Message::StartupMessage {
            frame_length: 78,
            parameters: vec![
                Parameter {
                    name: b"user".to_vec(),
                    value: b"root".to_vec(),
                },
                Parameter {
                    name: b"database".to_vec(),
                    value: b"testdb".to_vec(),
                },
                Parameter {
                    name: b"application_name".to_vec(),
                    value: b"psql".to_vec(),
                },
                Parameter {
                    name: b"client_encoding".to_vec(),
                    value: b"UTF8".to_vec(),
                },
            ]},
    ];
    let remaining = 0;

    assert_decode_startup_message(&data[..], &expected, remaining);
}

#[test]
fn invalid_startup_message_wrong_protocol_version() {
    let data = [
        0, 0, 0, 78,                                                                  // total length: 78
        0, 2, 0, 0,                                                                   // wrong protocol version: 2.0
        117, 115, 101, 114, 0,                                                        // cstr: "user\0"
        114, 111, 111, 116, 0,                                                        // cstr: "root\0"
        100, 97, 116, 97, 98, 97, 115, 101, 0,                                        // cstr: "database\0"
        116, 101, 115, 116, 100, 98, 0,                                               // cstr: "testdb\0"
        97, 112, 112, 108, 105, 99, 97, 116, 105, 111, 110, 95, 110, 97, 109, 101, 0, // cstr: "application_name\0"
        112, 115, 113, 108, 0,                                                        // cstr: "psql\0"
        99, 108, 105, 101, 110, 116, 95, 101, 110, 99, 111, 100, 105, 110, 103, 0,    // cstr: "client_encoding\0"
        85, 84, 70, 56, 0,                                                            // cstr: "UTF8\0"
        0,                                                                            // name/value pair terminator
    ];

    let expected = vec![];
    let remaining = 0;

    assert_decode_startup_message(&data[..], &expected, remaining);
}

#[test]
fn invalid_startup_message_missing_required_user() {
    let data = [
        0, 0, 0, 68,                                                                  // total length: 68
        0, 3, 0, 0,                                                                   // protocol version: 3.0
        100, 97, 116, 97, 98, 97, 115, 101, 0,                                        // cstr: "database\0"
        116, 101, 115, 116, 100, 98, 0,                                               // cstr: "testdb\0"
        97, 112, 112, 108, 105, 99, 97, 116, 105, 111, 110, 95, 110, 97, 109, 101, 0, // cstr: "application_name\0"
        112, 115, 113, 108, 0,                                                        // cstr: "psql\0"
        99, 108, 105, 101, 110, 116, 95, 101, 110, 99, 111, 100, 105, 110, 103, 0,    // cstr: "client_encoding\0"
        85, 84, 70, 56, 0,                                                            // cstr: "UTF8\0"
        0,                                                                            // name/value pair terminator
    ];

    let expected = vec![];
    let remaining = 0;

    assert_decode_startup_message(&data[..], &expected, remaining);
}

#[test]
fn invalid_startup_message_empty_parameters_list() {
    let data = [
        0, 0, 0, 9, // total length: 9
        0, 3, 0, 0, // protocol version: 3.0
        0,          // name/value pair terminator
    ];

    let expected = vec![];
    let remaining = 0;

    assert_decode_startup_message(&data[..], &expected, remaining);
}

#[test]
fn invalid_startup_message_missing_parameters_data() {
    let data = [
        0, 0, 0, 8, // total length: 8
        0, 3, 0, 0, // protocol version: 3.0
                    // missing parameters data
    ];

    let expected = vec![];
    let remaining = 0;

    assert_decode_startup_message(&data[..], &expected, remaining);
}

#[test]
fn invalid_startup_message_missing_parameters_list_terminator() {
    let data = [
        0, 0, 0, 77,                                                                  // total length: 77
        0, 3, 0, 0,                                                                   // protocol version: 3.0
        117, 115, 101, 114, 0,                                                        // cstr: "user\0"
        114, 111, 111, 116, 0,                                                        // cstr: "root\0"
        100, 97, 116, 97, 98, 97, 115, 101, 0,                                        // cstr: "database\0"
        116, 101, 115, 116, 100, 98, 0,                                               // cstr: "testdb\0"
        97, 112, 112, 108, 105, 99, 97, 116, 105, 111, 110, 95, 110, 97, 109, 101, 0, // cstr: "application_name\0"
        112, 115, 113, 108, 0,                                                        // cstr: "psql\0"
        99, 108, 105, 101, 110, 116, 95, 101, 110, 99, 111, 100, 105, 110, 103, 0,    // cstr: "client_encoding\0"
        85, 84, 70, 56, 0,                                                            // cstr: "UTF8\0"
                                                                                      // missing name/value pair terminator
    ];

    let expected = vec![];
    let remaining = 0;

    assert_decode_startup_message(&data[..], &expected, remaining);
}

#[test]
fn invalid_startup_message_missing_parameter_field() {
    let data = [
        0, 0, 0, 28,                           // total length: 28
        0, 3, 0, 0,                            // protocol version: 3.0
        117, 115, 101, 114, 0,                 // cstr: "user\0"
        114, 111, 111, 116, 0,                 // cstr: "root\0"
        100, 97, 116, 97, 98, 97, 115, 101, 0, // cstr: "database\0"
        0,                                     // missing value field || missing name/value pair terminator
    ];

    let expected = vec![];
    let remaining = 0;

    assert_decode_startup_message(&data[..], &expected, remaining);
}
