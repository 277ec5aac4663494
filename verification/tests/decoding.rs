use ptydecode::decoder::Decoder;
use ptydecode::event::Event;

fn decode_all(bytes: &[u8]) -> Vec<Event> {
    let mut decoder = Decoder::new();
    decoder.feed(bytes)
}

fn csi(params: Vec<Vec<u64>>, intermediates: &[u8], ignore: bool, action: char) -> Event {
    Event::CsiDispatch { params, intermediates: intermediates.to_vec(), ignore, action }
}

fn numbered_params(count: u64) -> Vec<u8> {
    let mut bytes = b"\x1b[".to_vec();
    for n in 1..=count {
        if n > 1 {
            bytes.push(b';');
        }
        bytes.extend_from_slice(n.to_string().as_bytes());
    }
    bytes
}

#[test]
fn sgr_sequence_is_one_csi_dispatch() {
    let events = decode_all(b"\x1b[1;31m");
    assert_eq!(events, vec![csi(vec![vec![1], vec![31]], b"", false, 'm')]);
}

#[test]
fn title_sequence_is_one_osc_dispatch() {
    let events = decode_all(b"\x1b]0;title\x07");
    assert_eq!(
        events,
        vec![Event::OscDispatch {
            slices: vec![b"0".to_vec(), b"title".to_vec()],
            bell_terminated: true,
        }]
    );
}

#[test]
fn empty_input_gives_no_events() {
    assert_eq!(decode_all(b""), vec![]);
}

#[test]
fn plain_text_prints_each_character_in_order() {
    let events = decode_all(b"hello, world ~");
    let expected: Vec<Event> = "hello, world ~".chars().map(Event::Print).collect();
    assert_eq!(events, expected);
}

#[test]
fn every_printable_ascii_byte_is_one_print() {
    for byte in 0x20u8..=0x7e {
        assert_eq!(decode_all(&[byte]), vec![Event::Print(byte as char)]);
    }
}

#[test]
fn plain_text_prints_byte_by_byte_too() {
    let mut decoder = Decoder::new();
    assert_eq!(decoder.advance(b'o'), vec![Event::Print('o')]);
    assert_eq!(decoder.advance(b'k'), vec![Event::Print('k')]);
}

#[test]
fn control_bytes_are_executed() {
    assert_eq!(
        decode_all(b"a\r\n\x07"),
        vec![Event::Print('a'), Event::Execute(0x0d), Event::Execute(0x0a), Event::Execute(0x07)]
    );
}

#[test]
fn escape_byte_alone_gives_nothing_yet() {
    let mut decoder = Decoder::new();
    assert_eq!(decoder.advance(0x1b), vec![]);
    assert_eq!(decoder.advance(b'['), vec![]);
    assert_eq!(decoder.advance(b'2'), vec![]);
    assert_eq!(decoder.advance(b'J'), vec![csi(vec![vec![2]], b"", false, 'J')]);
}

#[test]
fn escape_sequence_is_dispatched_with_its_final_byte() {
    assert_eq!(
        decode_all(b"\x1b7"),
        vec![Event::EscDispatch { intermediates: vec![], ignore: false, byte: b'7' }]
    );
}

#[test]
fn escape_sequence_collects_intermediates() {
    assert_eq!(
        decode_all(b"\x1b(B"),
        vec![Event::EscDispatch { intermediates: vec![b'('], ignore: false, byte: b'B' }]
    );
}

#[test]
fn csi_without_parameters_has_one_zero() {
    assert_eq!(decode_all(b"\x1b[m"), vec![csi(vec![vec![0]], b"", false, 'm')]);
}

#[test]
fn csi_private_marker_is_an_intermediate() {
    assert_eq!(decode_all(b"\x1b[?25h"), vec![csi(vec![vec![25]], b"?", false, 'h')]);
}

#[test]
fn csi_sub_parameters_stay_in_one_group() {
    assert_eq!(
        decode_all(b"\x1b[38:2:255;1m"),
        vec![csi(vec![vec![38, 2, 255], vec![1]], b"", false, 'm')]
    );
}

#[test]
fn csi_parameter_is_the_exact_number() {
    assert_eq!(decode_all(b"\x1b[70000m"), vec![csi(vec![vec![70000]], b"", false, 'm')]);
    assert_eq!(decode_all(b"\x1b[99999m"), vec![csi(vec![vec![99999]], b"", false, 'm')]);
    assert_eq!(decode_all(b"\x1b[65535;65536m"), vec![csi(vec![vec![65535], vec![65536]], b"", false, 'm')]);
    assert_eq!(
        decode_all(b"\x1b[18446744073709551614;0007m"),
        vec![csi(vec![vec![18446744073709551614], vec![7]], b"", false, 'm')]
    );
}

#[test]
fn csi_parameter_beyond_the_widest_number_is_the_widest() {
    assert_eq!(
        decode_all(b"\x1b[18446744073709551615;18446744073709551616;99999999999999999999999m"),
        vec![csi(vec![vec![u64::MAX], vec![u64::MAX], vec![u64::MAX]], b"", false, 'm')]
    );
}

#[test]
fn csi_sub_parameters_are_exact_too() {
    assert_eq!(
        decode_all(b"\x1b[38:2:70000:0:100000;;1m"),
        vec![csi(vec![vec![38, 2, 70000, 0, 100000], vec![0], vec![1]], b"", false, 'm')]
    );
}

#[test]
fn csi_parameter_digits_are_joined_across_an_executed_control() {
    assert_eq!(
        decode_all(b"\x1b[7000\n0m"),
        vec![Event::Execute(0x0a), csi(vec![vec![70000]], b"", false, 'm')]
    );
}

#[test]
fn device_control_string_parameters_are_exact() {
    assert_eq!(
        decode_all(b"\x1bP70000;1q"),
        vec![Event::Hook {
            params: vec![vec![70000], vec![1]],
            intermediates: vec![],
            ignore: false,
            action: 'q'
        }]
    );
}

#[test]
fn digits_in_text_do_not_reach_the_next_sequence() {
    assert_eq!(
        decode_all(b"12;34\x1b[5m67\x1b[m"),
        vec![
            Event::Print('1'),
            Event::Print('2'),
            Event::Print(';'),
            Event::Print('3'),
            Event::Print('4'),
            csi(vec![vec![5]], b"", false, 'm'),
            Event::Print('6'),
            Event::Print('7'),
            csi(vec![vec![0]], b"", false, 'm'),
        ]
    );
}

#[test]
fn control_byte_inside_a_command_breaks_it_off() {
    assert_eq!(
        decode_all(&[0x1b, 0x5d, 0x30, 0x3b, 0x61, 0x0a, 0x62, 0x07]),
        vec![Event::Execute(0x0a), Event::Print('b'), Event::Execute(0x07)]
    );
}

#[test]
fn every_breaking_control_byte_breaks_a_command_off() {
    for byte in (0x00u8..0x20).chain([0x7f]) {
        if [0x07, 0x18, 0x1a, 0x1b].contains(&byte) {
            continue;
        }
        let mut bytes = b"\x1b]0;a".to_vec();
        bytes.push(byte);
        bytes.extend_from_slice(b"b\x1b[1m");
        assert_eq!(
            decode_all(&bytes),
            vec![Event::Execute(byte), Event::Print('b'), csi(vec![vec![1]], b"", false, 'm')],
            "byte {:#04x}",
            byte
        );
    }
}

#[test]
fn control_byte_inside_a_device_control_string_breaks_it_off() {
    assert_eq!(
        decode_all(b"\x1bP1;2\nq"),
        vec![Event::Execute(0x0a), Event::Print('q')]
    );
    assert_eq!(
        decode_all(b"\x1bPqab\ncd"),
        vec![
            Event::Hook { params: vec![vec![0]], intermediates: vec![], ignore: false, action: 'q' },
            Event::Put(b'a'),
            Event::Put(b'b'),
            Event::Unhook,
            Event::Execute(0x0a),
            Event::Print('c'),
            Event::Print('d'),
        ]
    );
}

#[test]
fn cancel_inside_a_command_discards_it() {
    assert_eq!(
        decode_all(b"\x1b]0;a\x18b"),
        vec![Event::Execute(0x18), Event::Print('b')]
    );
}

#[test]
fn command_holds_more_slices_and_bytes_than_any_cap() {
    let mut bytes = b"\x1b]".to_vec();
    let mut slices: Vec<Vec<u8>> = Vec::new();
    for n in 0..40u32 {
        if n > 0 {
            bytes.push(b';');
        }
        let slice: Vec<u8> = std::iter::repeat(b'a' + (n % 26) as u8).take(100).collect();
        bytes.extend_from_slice(&slice);
        slices.push(slice);
    }
    bytes.push(0x07);
    assert_eq!(decode_all(&bytes), vec![Event::OscDispatch { slices, bell_terminated: true }]);
}

#[test]
fn command_keeps_colons_and_bytes_above_ascii() {
    assert_eq!(
        decode_all(b"\x1b]8;id=1:2;caf\xc3\xa9\x07"),
        vec![Event::OscDispatch {
            slices: vec![b"8".to_vec(), b"id=1:2".to_vec(), b"caf\xc3\xa9".to_vec()],
            bell_terminated: true,
        }]
    );
}

#[test]
fn as_many_parameters_as_the_cap_are_kept() {
    let mut bytes = numbered_params(32);
    bytes.push(b'm');
    let params: Vec<Vec<u64>> = (1..=32).map(|n| vec![n]).collect();
    assert_eq!(decode_all(&bytes), vec![csi(params, b"", false, 'm')]);
}

#[test]
fn more_parameters_than_the_cap_set_ignore() {
    let mut bytes = numbered_params(33);
    bytes.extend_from_slice(b"mA\x1b[1;31m");
    let params: Vec<Vec<u64>> = (1..=32).map(|n| vec![n]).collect();
    assert_eq!(
        decode_all(&bytes),
        vec![
            csi(params, b"", true, 'm'),
            Event::Print('A'),
            csi(vec![vec![1], vec![31]], b"", false, 'm'),
        ]
    );
}

#[test]
fn far_more_parameters_than_the_cap_still_complete() {
    let mut bytes = numbered_params(200);
    bytes.extend_from_slice(b"Hok");
    let events = decode_all(&bytes);
    let params: Vec<Vec<u64>> = (1..=32).map(|n| vec![n]).collect();
    assert_eq!(events, vec![csi(params, b"", true, 'H'), Event::Print('o'), Event::Print('k')]);
}

#[test]
fn more_intermediates_than_the_cap_set_ignore() {
    assert_eq!(decode_all(b"\x1b[!\"#p"), vec![csi(vec![vec![0]], b"!\"", true, 'p')]);
}

#[test]
fn ignore_does_not_leak_into_the_next_sequence() {
    let events = decode_all(b"\x1b[!\"#p\x1b[4m");
    assert_eq!(events[1], csi(vec![vec![4]], b"", false, 'm'));
    assert_eq!(events.len(), 2);
}

#[test]
fn escape_inside_a_control_sequence_starts_afresh() {
    assert_eq!(decode_all(b"\x1b[1;2\x1b[31m"), vec![csi(vec![vec![31]], b"", false, 'm')]);
}

#[test]
fn cancel_aborts_a_control_sequence() {
    assert_eq!(
        decode_all(b"\x1b[1;2\x18A\x1b[5m"),
        vec![Event::Execute(0x18), Event::Print('A'), csi(vec![vec![5]], b"", false, 'm')]
    );
}

#[test]
fn substitute_aborts_an_escape_sequence() {
    assert_eq!(
        decode_all(b"\x1b(\x1aB"),
        vec![Event::Execute(0x1a), Event::Print('B')]
    );
}

#[test]
fn sequence_after_an_aborted_one_decodes_cleanly() {
    let clean = decode_all(b"\x1b[?1;2$y");
    for aborted in [&b"\x1b"[..], b"\x1b[", b"\x1b[9;8;7", b"\x1b[>", b"\x1b(", b"\x1b[!\"#$%"] {
        let mut bytes = aborted.to_vec();
        bytes.extend_from_slice(b"\x1b[?1;2$y");
        assert_eq!(decode_all(&bytes), clean);
    }
}

#[test]
fn osc_without_separator_is_one_slice() {
    assert_eq!(
        decode_all(b"\x1b]hello\x07"),
        vec![Event::OscDispatch { slices: vec![b"hello".to_vec()], bell_terminated: true }]
    );
}

#[test]
fn osc_empty_has_one_empty_slice() {
    assert_eq!(
        decode_all(b"\x1b]\x07"),
        vec![Event::OscDispatch { slices: vec![vec![]], bell_terminated: true }]
    );
}

#[test]
fn osc_ended_by_string_terminator_is_not_bell_terminated() {
    assert_eq!(
        decode_all(b"\x1b]2;x\x1b\\"),
        vec![Event::OscDispatch {
            slices: vec![b"2".to_vec(), b"x".to_vec()],
            bell_terminated: false,
        }]
    );
}

#[test]
fn string_terminator_cut_between_chunks_is_still_one_dispatch() {
    let mut decoder = Decoder::new();
    assert_eq!(decoder.feed(b"\x1b]2;x"), vec![]);
    assert_eq!(decoder.feed(b"\x1b"), vec![]);
    assert_eq!(
        decoder.feed(b"\\"),
        vec![Event::OscDispatch {
            slices: vec![b"2".to_vec(), b"x".to_vec()],
            bell_terminated: false,
        }]
    );
    assert_eq!(decoder.feed(b"\\"), vec![Event::Print('\\')]);
}

#[test]
fn escape_and_backslash_on_their_own_are_an_escape_sequence() {
    assert_eq!(
        decode_all(b"\x1b\\"),
        vec![Event::EscDispatch { intermediates: vec![], ignore: false, byte: b'\\' }]
    );
}

#[test]
fn escape_inside_a_command_without_backslash_discards_it() {
    assert_eq!(decode_all(b"\x1b]2;x\x1b[1m"), vec![csi(vec![vec![1]], b"", false, 'm')]);
    assert_eq!(decode_all(b"\x1b]2;x\x1b\x1b\\"), vec![
        Event::EscDispatch { intermediates: vec![], ignore: false, byte: b'\\' },
    ]);
    assert_eq!(
        decode_all(b"\x1b]2;x\x1b]3;y\x07"),
        vec![Event::OscDispatch { slices: vec![b"3".to_vec(), b"y".to_vec()], bell_terminated: true }]
    );
}

#[test]
fn text_after_a_string_terminator_is_printed() {
    assert_eq!(
        decode_all(b"\x1b]2;x\x1b\\ok"),
        vec![
            Event::OscDispatch { slices: vec![b"2".to_vec(), b"x".to_vec()], bell_terminated: false },
            Event::Print('o'),
            Event::Print('k'),
        ]
    );
}

#[test]
fn delete_is_executed_not_printed() {
    assert_eq!(
        decode_all(b"a\x7fb"),
        vec![Event::Print('a'), Event::Execute(0x7f), Event::Print('b')]
    );
    let mut decoder = Decoder::new();
    assert_eq!(decoder.advance(0x7f), vec![Event::Execute(0x7f)]);
}

#[test]
fn delete_inside_a_control_sequence_is_passed_over() {
    assert_eq!(decode_all(b"\x1b[1\x7f;2m"), vec![csi(vec![vec![1], vec![2]], b"", false, 'm')]);
}

#[test]
fn osc_slices_do_not_leak_into_the_next_command() {
    assert_eq!(
        decode_all(b"\x1b]0;a;b;c\x07\x1b]1\x07"),
        vec![
            Event::OscDispatch {
                slices: vec![b"0".to_vec(), b"a".to_vec(), b"b".to_vec(), b"c".to_vec()],
                bell_terminated: true,
            },
            Event::OscDispatch { slices: vec![b"1".to_vec()], bell_terminated: true },
        ]
    );
}

#[test]
fn device_control_string_hooks_puts_and_unhooks() {
    assert_eq!(
        decode_all(b"\x1bP1;2$qab\x1b\\"),
        vec![
            Event::Hook {
                params: vec![vec![1], vec![2]],
                intermediates: vec![b'$'],
                ignore: false,
                action: 'q',
            },
            Event::Put(b'a'),
            Event::Put(b'b'),
            Event::Unhook,
        ]
    );
}

#[test]
fn device_control_string_cancelled_unhooks() {
    assert_eq!(
        decode_all(b"\x1bPqx\x18y"),
        vec![
            Event::Hook { params: vec![vec![0]], intermediates: vec![], ignore: false, action: 'q' },
            Event::Put(b'x'),
            Event::Unhook,
            Event::Execute(0x18),
            Event::Print('y'),
        ]
    );
}

#[test]
fn utf8_character_is_one_print() {
    assert_eq!(decode_all("é€".as_bytes()), vec![Event::Print('é'), Event::Print('€')]);
}

#[test]
fn utf8_character_split_between_chunks_is_one_print() {
    let bytes = "€".as_bytes();
    let mut decoder = Decoder::new();
    assert_eq!(decoder.feed(&bytes[..1]), vec![]);
    assert_eq!(decoder.feed(&bytes[1..2]), vec![]);
    assert_eq!(decoder.feed(&bytes[2..]), vec![Event::Print('€')]);
}

const STREAM: &[u8] =
    b"ab\x1b[1;31mhi\x1b[0m\r\n\x1b]0;title\x07\x1bP1$qdata\x1b\\\xc3\xa9\x1b(B\x1b[38:2:1;4mz";

#[test]
fn feeding_byte_by_byte_equals_feeding_at_once() {
    let whole = decode_all(STREAM);
    let mut decoder = Decoder::new();
    let mut events = Vec::new();
    for byte in STREAM {
        events.extend(decoder.advance(*byte));
    }
    assert_eq!(events, whole);
    assert_eq!(whole.len(), 19);
}

#[test]
fn every_cut_in_two_gives_the_same_events() {
    let whole = decode_all(STREAM);
    for cut in 0..=STREAM.len() {
        let mut decoder = Decoder::new();
        let mut events = decoder.feed(&STREAM[..cut]);
        events.extend(decoder.feed(&STREAM[cut..]));
        assert_eq!(events, whole, "cut at {}", cut);
    }
}

#[test]
fn every_chunk_size_gives_the_same_events() {
    let whole = decode_all(STREAM);
    for size in 1..=STREAM.len() {
        let mut decoder = Decoder::new();
        let mut events = Vec::new();
        for chunk in STREAM.chunks(size) {
            events.extend(decoder.feed(chunk));
        }
        assert_eq!(events, whole, "chunks of {}", size);
    }
}

#[test]
fn decoders_are_independent() {
    let mut one = Decoder::new();
    let mut other = Decoder::new();
    assert_eq!(one.feed(b"\x1b[1"), vec![]);
    assert_eq!(other.feed(b"m"), vec![Event::Print('m')]);
    assert_eq!(one.feed(b"m"), vec![csi(vec![vec![1]], b"", false, 'm')]);
}

fn random_bytes(seed: &mut u32, alphabet: &[u8], count: usize) -> Vec<u8> {
    let mut bytes = Vec::new();
    for _ in 0..count {
        *seed = seed.wrapping_mul(1664525).wrapping_add(1013904223);
        bytes.push(alphabet[(*seed >> 16) as usize % alphabet.len()]);
    }
    bytes
}

#[test]
fn sequence_after_any_seven_bit_bytes_decodes_as_on_a_new_decoder() {
    let alphabet: &[u8] = b"\x1b\x1b[]P\\0123;:?$ qmaZ\n\r\x07\x18\x1a\x7f";
    let sequence: &[u8] = b"\x1b[1;31m";
    let alone = decode_all(sequence);
    let mut seed: u32 = 2024;
    for _ in 0..2000 {
        let mut bytes = random_bytes(&mut seed, alphabet, 24);
        bytes.extend_from_slice(sequence);
        let events = decode_all(&bytes);
        assert_eq!(events.last(), alone.last(), "stream {:?}", bytes);
    }
}

#[test]
fn bytes_after_an_overflowing_sequence_decode_as_on_a_new_decoder() {
    let alphabet: &[u8] = b"\x1b[]P\\0123;:?$ qmaZ\n\x07\x18\xc3\xa9";
    let mut over = numbered_params(40);
    over.push(b'H');
    let mut seed: u32 = 99;
    for _ in 0..500 {
        let tail = random_bytes(&mut seed, alphabet, 20);
        let mut bytes = over.clone();
        bytes.extend_from_slice(&tail);
        let events = decode_all(&bytes);
        assert!(matches!(events[0], Event::CsiDispatch { ignore: true, action: 'H', .. }));
        assert_eq!(events[1..].to_vec(), decode_all(&tail), "tail {:?}", tail);
    }
}

#[test]
fn bytes_after_printed_text_decode_as_on_a_new_decoder() {
    let alphabet: &[u8] = b"\x1b[]P\\0123;:?$ qmaZ\n\x07\x18\xc3\xa9";
    let mut seed: u32 = 5;
    for _ in 0..500 {
        let tail = random_bytes(&mut seed, alphabet, 20);
        let mut bytes = b"12;3".to_vec();
        bytes.extend_from_slice(&tail);
        let events = decode_all(&bytes);
        assert_eq!(events[4..].to_vec(), decode_all(&tail), "tail {:?}", tail);
    }
}

#[test]
fn overflowing_sequence_keeps_the_first_values_exactly() {
    let mut bytes = b"\x1b[".to_vec();
    for n in 0..40u64 {
        bytes.extend_from_slice(format!("{};", 70000 + n).as_bytes());
    }
    bytes.push(b'm');
    let params: Vec<Vec<u64>> = (0..32).map(|n| vec![70000 + n]).collect();
    assert_eq!(decode_all(&bytes), vec![csi(params, b"", true, 'm')]);
}
