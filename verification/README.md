# breezydb

An append-only storage engine in Verus: executable Rust whose behaviour is stated in contracts and
proved.

- `src/data`, `src/record.rs`, `src/frame.rs`, `src/file.rs`: the byte formats of records,
  transactions, fixed-size frames and data files, and schemas of records.
- `src/storage`: log frames and their recovery scan, the group-committing writer, reads up to the
  visibility watermark, and what a single-file backend decides.
- `src/extsort.rs`, `src/sorting.rs`, `src/heap.rs`: a bounded-memory sort of `(pk, frame_idx)` pairs.
- `src/pkindex`: the primary key index, a mutable B+tree over 4 kB pages with a write-back page
  cache, and its bulk loader.

The library does no I/O. Where the engine needs a page or a chunk of a file, it asks for it and
takes it in, and its contracts say what it comes to over whatever is on disk. `app` holds what does
the I/O: files, the writer thread, and a small HTTP server.

The laws of the library are the public proof functions whose names begin with `law_`:

- what is written is read back (`law_record_round_trip`, `law_record_header_round_trip`,
  `law_transaction_round_trip`, `law_frame_round_trip`, `law_open_frame`, `law_seal`,
  `law_sealed_file_opens`, `law_header_round_trip`);
- a scan of a log finds what was written, in order, and a torn tail hides nothing before it
  (`law_scan_finds_frames`, `law_scan_finds_transactions`, `law_torn_tail_is_cut`);
- readers are never shown more than the log holds (`law_seen_is_in_log`);
- the fields of a record follow one another (`law_fields_are_adjacent`);
- the sort gives back what was pushed, in key order, and spills nothing that fits in its budget
  (`law_sort`);
- a bulk load leaves an index of what was pushed, which can be opened again (`law_load`,
  `law_push_keeps_disk`, `law_sent`);
- the index is a map, and stays one (`law_bulk_load`, `law_lookup`, `law_upsert`, `law_remove`,
  `law_upsert_bounds`, `law_siblings`), of at most four levels (`law_height`, `law_page_cnt`,
  `law_upserts_fit`);
- the page cache spares pages that were used since the clock's hand last passed them (`law_sweep`,
  `law_sweep_all`);
- an index that was not flushed is not opened again, and one that opens clean after a crash is the
  one that was last flushed (`law_flush`, `law_clean_is_on_disk`, `law_dirty_is_rejected`,
  `law_guard_opened`, `law_guard_started`, `law_guard_failed`, `law_guard_step`,
  `law_guard_written`, `law_guard_supplied`, `law_crash`).

Three outside functions are trusted: the two checksums of the `crc32c` crate (`src/checksum.rs`) and
the sort of slices of the standard library (`src/extsort.rs`).
