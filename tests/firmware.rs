use bootmem::efi::{
    EfiMemoryDescriptor, EfiStatus, ExitHandshake, ExitPhase, FirmwareAction, FirmwareEvent,
    HandshakeError, MemoryMapHolder, MEMORY_MAP_BUFFER_SIZE,
};

#[test]
fn status_zero_is_success() {
    assert_eq!(EfiStatus::from_raw(0), EfiStatus::Success);
    assert_eq!(EfiStatus::from_raw(0x8000_0000_0000_0005), EfiStatus::Error(0x8000_0000_0000_0005));
}

#[test]
fn new_holder_is_empty() {
    let h = MemoryMapHolder::new();
    assert_eq!(h.memory_map_buffer.len(), MEMORY_MAP_BUFFER_SIZE);
    assert!(h.memory_map_buffer.iter().all(|b| *b == 0));
    assert_eq!(h.memory_map_size, 0);
    assert_eq!(h.map_key, 0);
    assert_eq!(h.descriptor_size, 0);
    assert_eq!(h.descriptor_version, 0);
}

#[test]
fn prepare_query_offers_the_whole_buffer() {
    let mut h = MemoryMapHolder::new();
    h.memory_map_size = 480;
    h.map_key = 9;
    h.descriptor_size = 48;
    h.prepare_query();
    assert_eq!(h.memory_map_size, MEMORY_MAP_BUFFER_SIZE);
    assert_eq!(h.map_key, 9);
    assert_eq!(h.descriptor_size, 48);
}

#[test]
fn descriptor_fields_are_little_endian() {
    let mut h = MemoryMapHolder::new();
    let bytes: Vec<u8> = (0u8..48).collect();
    h.memory_map_buffer[48..96].copy_from_slice(&bytes);
    h.memory_map_size = 96;
    h.descriptor_size = 48;
    assert_eq!(h.descriptor_count(), 2);
    let d = h.descriptor(1);
    assert_eq!(
        d,
        EfiMemoryDescriptor {
            memory_type: 0x0302_0100,
            padding: 0x0706_0504,
            physical_start: 0x0f0e_0d0c_0b0a_0908,
            virtual_start: 0x1716_1514_1312_1110,
            number_of_pages: 0x1f1e_1d1c_1b1a_1918,
            attribute: 0x2726_2524_2322_2120,
        }
    );
}

/// A firmware whose exit call accepts only the key of the latest capture and
/// rejects the first key it is offered.
struct StaleFirmware {
    generation: usize,
    exits_offered: usize,
    calls_after_exit: usize,
    exited: bool,
}

impl StaleFirmware {
    fn get_memory_map(&mut self, holder: &mut MemoryMapHolder) -> EfiStatus {
        if self.exited {
            self.calls_after_exit += 1;
        }
        holder.prepare_query();
        self.generation += 1;
        holder.map_key = self.generation;
        holder.memory_map_size = 0;
        holder.descriptor_size = 48;
        EfiStatus::Success
    }

    fn exit_boot_services(&mut self, map_key: usize) -> EfiStatus {
        if self.exited {
            self.calls_after_exit += 1;
        }
        self.exits_offered += 1;
        if self.exits_offered == 1 {
            // Some firmware activity aged the map in between.
            self.generation += 1;
        }
        if map_key == self.generation {
            self.exited = true;
            EfiStatus::Success
        } else {
            EfiStatus::Error(2)
        }
    }
}

#[test]
fn handshake_recovers_from_a_stale_key_in_two_iterations() {
    let mut fw = StaleFirmware { generation: 0, exits_offered: 0, calls_after_exit: 0, exited: false };
    let mut holder = MemoryMapHolder::new();
    let mut hs = ExitHandshake::new();
    let mut action = hs.step(FirmwareEvent::Start).unwrap();
    let mut iterations = 0;
    let mut keys = Vec::new();
    loop {
        match action {
            FirmwareAction::GetMemoryMap => {
                let status = fw.get_memory_map(&mut holder);
                action = hs.step(FirmwareEvent::MapCaptured { status, map_key: holder.map_key }).unwrap();
            }
            FirmwareAction::ExitBootServices { map_key } => {
                iterations += 1;
                keys.push(map_key);
                let status = fw.exit_boot_services(map_key);
                action = hs.step(FirmwareEvent::ExitAnswered { status }).unwrap();
            }
            FirmwareAction::Done => break,
        }
        assert!(iterations <= 10);
    }
    assert_eq!(iterations, 2);
    assert_eq!(keys, vec![1, 3]);
    assert_eq!(hs.phase, ExitPhase::ExitAccepted);
    assert_eq!(fw.calls_after_exit, 0);
    // Whatever is reported afterwards, no firmware call is asked for.
    assert_eq!(hs.step(FirmwareEvent::Start), Err(HandshakeError::UnexpectedEvent));
    assert_eq!(
        hs.step(FirmwareEvent::ExitAnswered { status: EfiStatus::Success }),
        Err(HandshakeError::UnexpectedEvent)
    );
    assert_eq!(hs.phase, ExitPhase::ExitAccepted);
}

#[test]
fn handshake_accepts_at_once_with_a_fresh_key() {
    let mut hs = ExitHandshake::new();
    assert_eq!(hs.step(FirmwareEvent::Start), Ok(FirmwareAction::GetMemoryMap));
    assert_eq!(
        hs.step(FirmwareEvent::MapCaptured { status: EfiStatus::Success, map_key: 42 }),
        Ok(FirmwareAction::ExitBootServices { map_key: 42 })
    );
    assert_eq!(hs.phase, ExitPhase::ExitRequested { map_key: 42 });
    assert_eq!(
        hs.step(FirmwareEvent::ExitAnswered { status: EfiStatus::Success }),
        Ok(FirmwareAction::Done)
    );
}

#[test]
fn failed_map_query_is_fatal() {
    let mut hs = ExitHandshake::new();
    hs.step(FirmwareEvent::Start).unwrap();
    let status = EfiStatus::Error(5);
    assert_eq!(
        hs.step(FirmwareEvent::MapCaptured { status, map_key: 1 }),
        Err(HandshakeError::MapQueryFailed { status })
    );
    assert_eq!(hs.phase, ExitPhase::MapRequested);
}

#[test]
fn out_of_order_event_is_refused() {
    let mut hs = ExitHandshake::new();
    assert_eq!(
        hs.step(FirmwareEvent::ExitAnswered { status: EfiStatus::Success }),
        Err(HandshakeError::UnexpectedEvent)
    );
    assert_eq!(hs.phase, ExitPhase::Idle);
}
