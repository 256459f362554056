//! Counting notes, polyphony, controller events and note density in Standard
//! MIDI Files, plain or xz-compressed.

pub mod buffered_cursor;
pub mod byte_laws;
pub mod byte_source;
pub mod channel_reader;
pub mod clock_laws;
pub mod count_laws;
pub mod cut_laws;
pub mod event_queue;
pub mod heard_laws;
pub mod merge_laws;
pub mod message;
pub mod midi_parser;
pub mod mode_laws;
pub mod order_laws;
pub mod pass_laws;
pub mod play_laws;
pub mod progress_laws;
pub mod report;
pub mod song_laws;
pub mod standard;
pub mod stream;
pub mod stream_tally;
pub mod tally;
pub mod tally_laws;
pub mod tempo_map;
pub mod tempo_scan;
pub mod time_laws;
pub mod track_event;
pub mod track_parser;
pub mod transparency;
pub mod varint;
pub mod varint_laws;
pub mod written;
pub mod written_laws;
pub mod xz;
