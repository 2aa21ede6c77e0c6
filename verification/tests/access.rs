use std::cell::RefCell;
use std::io::Error as IoError;
use vm_memory::{
    volatile_memory, Error, GuestAddress, GuestMemoryMmap, GuestRegionMmap, HostArea, HostMemory,
    MapRequest, MemoryRegionAddress, MmapError, MmapRegion,
};

/// Lends memory from the heap, of the length asked for.
fn map(request: MapRequest, _there: &HostMemory<'static>) -> Result<HostArea<'static>, IoError> {
    if request.len == 0 {
        return Err(IoError::from_raw_os_error(libc::EINVAL));
    }
    let bytes: &'static mut [u8] = Box::leak(vec![0u8; request.len].into_boxed_slice());
    let addr = bytes.as_ptr() as usize;
    Ok(HostArea::new(addr, bytes))
}

/// The bytes 1, 2, 3 and so on.
fn sample(len: u8) -> Vec<u8> {
    (1..=len).collect()
}

#[test]
fn requests_for_anonymous_memory_and_for_a_file() {
    let asked = RefCell::new(Vec::new());
    let record = |request: MapRequest, there: &HostMemory<'static>| {
        asked.borrow_mut().push(request);
        map(request, there)
    };
    let mut host = HostMemory::new();
    let first = MmapRegion::new(0x80, &mut host, &record).unwrap();
    let second = MmapRegion::from_fd(7, 0x40, 0x2000, &mut host, &record).unwrap();
    let anonymous = MapRequest {
        len: 0x80,
        read: true,
        write: true,
        shared: true,
        anonymous: true,
        no_reserve: true,
        fd: -1,
        offset: 0,
    };
    let file = MapRequest {
        len: 0x40,
        read: true,
        write: true,
        shared: true,
        anonymous: false,
        no_reserve: false,
        fd: 7,
        offset: 0x2000,
    };
    assert_eq!(asked.into_inner(), vec![anonymous, file]);
    let areas = host.into_areas();
    assert_eq!(areas.len(), 2);
    assert_eq!((areas[0].addr(), areas[0].len()), (first.as_ptr(), 0x80));
    assert_eq!((areas[1].addr(), areas[1].len()), (second.as_ptr(), 0x40));
}

#[test]
fn slices_outside_a_mapping() {
    let mut host = HostMemory::new();
    let m = MmapRegion::new(16, &mut host, map).unwrap();
    let whole = m.get_slice(0, 16).unwrap();
    assert_eq!((whole.as_ptr(), whole.len()), (m.as_ptr(), 16));
    let nothing = m.get_slice(16, 0).unwrap();
    assert_eq!((nothing.as_ptr(), nothing.len()), (m.as_ptr() + 16, 0));
    assert!(matches!(
        m.get_slice(14, 3),
        Err(volatile_memory::Error::OutOfBounds { addr: 17 })
    ));
    assert!(matches!(
        m.get_slice(usize::MAX, 2),
        Err(volatile_memory::Error::Overflow { base: usize::MAX, offset: 2 })
    ));
}

#[test]
fn slice_is_part_of_its_mapping() {
    let mut host = HostMemory::new();
    let m = MmapRegion::new(8, &mut host, map).unwrap();
    let s = m.get_slice(2, 4).unwrap();
    assert_eq!(s.write(&mut host, &sample(3), 1).unwrap(), 3);
    assert_eq!(m.as_slice(&host), &[0, 0, 0, 1, 2, 3, 0, 0]);
    m.as_mut_slice(&mut host)[2] = 9;
    let mut buf = [7u8; 6];
    assert_eq!(s.read(&host, &mut buf, 0).unwrap(), 4);
    assert_eq!(buf, [9, 1, 2, 3, 7, 7]);
    assert!(s.write_slice(&mut host, &sample(2), 2).is_ok());
    assert!(matches!(
        s.write_slice(&mut host, &sample(2), 3),
        Err(volatile_memory::Error::PartialBuffer { expected: 2, completed: 1 })
    ));
    assert_eq!(m.as_slice(&host), &[0, 0, 9, 1, 1, 1, 0, 0]);
    assert!(matches!(
        s.read_slice(&host, &mut buf, 0),
        Err(volatile_memory::Error::PartialBuffer { expected: 6, completed: 4 })
    ));
    assert!(s.read_slice(&host, &mut buf[..2], 1).is_ok());
    assert!(matches!(
        s.write(&mut host, &[], 4),
        Err(volatile_memory::Error::OutOfBounds { addr: 4 })
    ));
    assert!(matches!(
        s.read(&host, &mut buf, 9),
        Err(volatile_memory::Error::OutOfBounds { addr: 9 })
    ));
}

#[test]
fn region_addresses() {
    let mut host = HostMemory::new();
    let m = MmapRegion::new(0x400, &mut host, map).unwrap();
    let addr = m.as_ptr();
    let r = GuestRegionMmap::new(m, GuestAddress(0x1000));
    assert_eq!(r.len(), 0x400);
    assert_eq!(r.min_addr(), GuestAddress(0x1000));
    assert_eq!(r.max_addr(), GuestAddress(0x1400));
    assert_eq!(r.as_ptr(), addr);
    assert_eq!(r.get_host_address(MemoryRegionAddress(0x3ff)), Some(addr + 0x3ff));
    assert_eq!(r.get_host_address(MemoryRegionAddress(0x400)), None);
    assert_eq!(
        r.to_region_addr(GuestAddress(0x13ff)),
        Some(MemoryRegionAddress(0x3ff))
    );
    assert_eq!(r.to_region_addr(GuestAddress(0x1400)), None);
    assert_eq!(r.to_region_addr(GuestAddress(0xfff)), None);
}

#[test]
fn region_reads_what_was_written() {
    let mut host = HostMemory::new();
    let r = GuestRegionMmap::new(
        MmapRegion::new(8, &mut host, map).unwrap(),
        GuestAddress(0),
    );
    assert_eq!(r.write(&mut host, &sample(5), MemoryRegionAddress(5)).unwrap(), 3);
    assert_eq!(r.as_slice(&host).unwrap(), &[0, 0, 0, 0, 0, 1, 2, 3]);
    let mut buf = [9u8; 4];
    assert_eq!(r.read(&host, &mut buf, MemoryRegionAddress(6)).unwrap(), 2);
    assert_eq!(buf, [2, 3, 9, 9]);
    assert!(r.write_slice(&mut host, &sample(2), MemoryRegionAddress(0)).is_ok());
    assert!(r.read_slice(&host, &mut buf, MemoryRegionAddress(0)).is_ok());
    assert_eq!(buf, [1, 2, 0, 0]);
    r.as_mut_slice(&mut host).unwrap()[7] = 8;
    assert!(matches!(
        r.read_slice(&host, &mut buf, MemoryRegionAddress(6)),
        Err(Error::PartialBuffer { expected: 4, completed: 2 })
    ));
    assert_eq!(buf, [2, 8, 0, 0]);
    assert!(matches!(
        r.write_slice(&mut host, &sample(2), MemoryRegionAddress(7)),
        Err(Error::PartialBuffer { expected: 2, completed: 1 })
    ));
    for result in [
        r.write(&mut host, &sample(1), MemoryRegionAddress(8)),
        r.read(&host, &mut buf, MemoryRegionAddress(8)),
    ] {
        assert!(matches!(result, Err(Error::InvalidBackendAddress)));
    }
}

#[test]
fn region_streams() {
    let mut host = HostMemory::new();
    let r = GuestRegionMmap::new(
        MmapRegion::new(8, &mut host, map).unwrap(),
        GuestAddress(0),
    );
    let at = MemoryRegionAddress(2);
    assert_eq!(r.read_from(&mut host, at, |n| Ok(vec![5; n - 1]), 4).unwrap(), 3);
    assert_eq!(r.as_slice(&host).unwrap(), &[0, 0, 5, 5, 5, 0, 0, 0]);
    assert!(r.read_exact_from(&mut host, at, |n| Ok(vec![6; n]), 6).is_ok());
    assert_eq!(r.as_slice(&host).unwrap(), &[0, 0, 6, 6, 6, 6, 6, 6]);
    let mut sink = Vec::new();
    let taken = r.write_to(
        &host,
        MemoryRegionAddress(1),
        |out| {
            sink.extend_from_slice(out);
            Ok(2)
        },
        3,
    );
    assert_eq!(taken.unwrap(), 2);
    assert_eq!(sink, vec![0, 6, 6]);
    let mut all = Vec::new();
    let done = r.write_all_to(
        &host,
        MemoryRegionAddress(0),
        |out| {
            all.extend_from_slice(out);
            Ok(())
        },
        8,
    );
    assert!(done.is_ok());
    assert_eq!(all, vec![0, 0, 6, 6, 6, 6, 6, 6]);
}

#[test]
fn region_streams_fail() {
    let mut host = HostMemory::new();
    let r = GuestRegionMmap::new(
        MmapRegion::new(8, &mut host, map).unwrap(),
        GuestAddress(0),
    );
    let at = MemoryRegionAddress(2);
    let eio = || IoError::from_raw_os_error(libc::EIO);
    // The source and the sink are left alone where the bytes are not all in the region.
    assert!(matches!(
        r.read_from(&mut host, at, |_| unreachable!(), 7),
        Err(Error::InvalidBackendAddress)
    ));
    assert!(matches!(
        r.read_exact_from(&mut host, at, |_| unreachable!(), usize::MAX),
        Err(Error::InvalidBackendAddress)
    ));
    assert!(matches!(
        r.write_to(&host, at, |_| unreachable!(), 7),
        Err(Error::InvalidBackendAddress)
    ));
    assert!(matches!(
        r.write_all_to(&host, at, |_| unreachable!(), 7),
        Err(Error::InvalidBackendAddress)
    ));
    let failed = [
        r.read_from(&mut host, at, |_| Err(eio()), 4).unwrap_err(),
        r.read_exact_from(&mut host, at, |_| Err(eio()), 4).unwrap_err(),
        r.write_to(&host, at, |_| Err(eio()), 4).unwrap_err(),
        r.write_all_to(&host, at, |_| Err(eio()), 4).unwrap_err(),
    ];
    for error in failed {
        match error {
            Error::IOError(e) => assert_eq!(e.raw_os_error(), Some(libc::EIO)),
            other => panic!("{:?}", other),
        }
    }
    assert_eq!(r.as_slice(&host).unwrap(), &[0; 8]);
    match r.as_volatile_slice().read_from(&mut host, 0, |_| Err(eio()), 1) {
        Err(volatile_memory::Error::IOError(e)) => assert_eq!(e.raw_os_error(), Some(libc::EIO)),
        other => panic!("{:?}", other),
    }
}

#[test]
fn ranges_may_touch_but_not_overlap() {
    let mut host = HostMemory::new();
    let ranges = [(GuestAddress(0x1000), 0x100), (GuestAddress(0x1100), 0x100)];
    assert!(GuestMemoryMmap::new(&ranges, &mut host, map).is_ok());
    for (second, size) in [(0x10ff, 0x100), (0x1000, 1), (0xfff, 1)] {
        let ranges = [(GuestAddress(0x1000), 0x100), (GuestAddress(second), size)];
        assert!(matches!(
            GuestMemoryMmap::new(&ranges, &mut host, map),
            Err(MmapError::MemoryRegionOverlap)
        ));
    }
    // A range that runs past the last address leaves no room for another.
    let ranges = [(GuestAddress(u64::MAX), 2), (GuestAddress(u64::MAX), 1)];
    assert!(matches!(
        GuestMemoryMmap::new(&ranges, &mut host, map),
        Err(MmapError::MemoryRegionOverlap)
    ));
}

#[test]
fn refused_mapping_ends_the_creation() {
    let mut host = HostMemory::new();
    let ranges = [
        (GuestAddress(0), 0x10),
        (GuestAddress(0x10), 0x20),
        (GuestAddress(0), 0x30),
    ];
    let result = GuestMemoryMmap::new(&ranges, &mut host, |request, there| {
        if request.len == 0x20 {
            return Err(IoError::from_raw_os_error(libc::ENOMEM));
        }
        map(request, there)
    });
    match result {
        Err(MmapError::SystemCallFailed(e)) => assert_eq!(e.raw_os_error(), Some(libc::ENOMEM)),
        other => panic!("{:?}", other),
    }
    let areas = host.into_areas();
    assert_eq!(areas.len(), 1);
    assert_eq!(areas[0].len(), 0x10);
}

#[test]
fn every_address_has_its_place() {
    let mut host = HostMemory::new();
    let gm = GuestMemoryMmap::new(
        &[(GuestAddress(0x100), 0x10), (GuestAddress(0x200), 0x20)],
        &mut host,
        map,
    )
    .unwrap();
    let (region, offset) = gm.to_region_addr(GuestAddress(0x20f)).unwrap();
    assert_eq!(region.min_addr(), GuestAddress(0x200));
    assert_eq!(offset, MemoryRegionAddress(0xf));
    assert_eq!(gm.get_host_address(GuestAddress(0x20f)), Some(region.as_ptr() + 0xf));
    let (region, offset) = gm.to_region_addr(GuestAddress(0x100)).unwrap();
    assert_eq!(offset, MemoryRegionAddress(0));
    assert_eq!(gm.get_host_address(GuestAddress(0x100)), Some(region.as_ptr()));
    for hole in [0xff, 0x110, 0x1ff, 0x220] {
        assert!(gm.to_region_addr(GuestAddress(hole)).is_none());
        assert_eq!(gm.get_host_address(GuestAddress(hole)), None);
    }
}

#[test]
fn access_stops_at_a_hole() {
    let mut host = HostMemory::new();
    let gm = GuestMemoryMmap::new(
        &[(GuestAddress(0), 4), (GuestAddress(4), 2), (GuestAddress(7), 4)],
        &mut host,
        map,
    )
    .unwrap();
    assert_eq!(gm.write(&mut host, &sample(9), GuestAddress(1)).unwrap(), 5);
    let mut buf = [9u8; 8];
    assert_eq!(gm.read(&host, &mut buf, GuestAddress(0)).unwrap(), 6);
    assert_eq!(buf, [0, 1, 2, 3, 4, 5, 9, 9]);
    assert_eq!(gm.read(&host, &mut buf, GuestAddress(7)).unwrap(), 4);
    assert_eq!(buf, [0, 0, 0, 0, 4, 5, 9, 9]);
    assert!(matches!(
        gm.read(&host, &mut buf, GuestAddress(6)),
        Err(Error::InvalidGuestAddress(GuestAddress(6)))
    ));
    assert!(matches!(
        gm.read_slice(&host, &mut buf, GuestAddress(3)),
        Err(Error::PartialBuffer { expected: 8, completed: 3 })
    ));
    assert!(matches!(
        gm.write(&mut host, &[], GuestAddress(0)),
        Err(Error::InvalidGuestAddress(GuestAddress(0)))
    ));
}

#[test]
fn two_writes_are_one() {
    let mut host = HostMemory::new();
    let ranges = [(GuestAddress(0), 4), (GuestAddress(4), 4)];
    let once = GuestMemoryMmap::new(&ranges, &mut host, map).unwrap();
    let twice = GuestMemoryMmap::new(&ranges, &mut host, map).unwrap();
    once.write_slice(&mut host, &sample(6), GuestAddress(1)).unwrap();
    let mut buf = [9u8; 8];
    twice.read_slice(&host, &mut buf, GuestAddress(0)).unwrap();
    assert_eq!(buf, [0; 8]);
    twice.write_slice(&mut host, &[1, 2], GuestAddress(1)).unwrap();
    twice.write_slice(&mut host, &[3, 4, 5, 6], GuestAddress(3)).unwrap();
    for gm in [once, twice] {
        gm.read_slice(&host, &mut buf, GuestAddress(0)).unwrap();
        assert_eq!(buf, [0, 1, 2, 3, 4, 5, 6, 0]);
    }
}

#[test]
fn guest_sees_what_a_region_wrote() {
    let mut host = HostMemory::new();
    let gm = GuestMemoryMmap::new(
        &[(GuestAddress(0x10), 4), (GuestAddress(0x14), 4)],
        &mut host,
        map,
    )
    .unwrap();
    let region = gm.find_region(GuestAddress(0x15)).unwrap();
    region.write(&mut host, &sample(2), MemoryRegionAddress(1)).unwrap();
    let mut buf = [9u8; 8];
    gm.read_slice(&host, &mut buf, GuestAddress(0x10)).unwrap();
    assert_eq!(buf, [0, 0, 0, 0, 0, 1, 2, 0]);
}

#[test]
fn clone_is_the_same_memory() {
    let mut host = HostMemory::new();
    let gm = GuestMemoryMmap::new(&[(GuestAddress(0), 4)], &mut host, map).unwrap();
    let other = gm.clone();
    gm.write_slice(&mut host, &sample(4), GuestAddress(0)).unwrap();
    let mut buf = [0u8; 4];
    other.read_slice(&host, &mut buf, GuestAddress(0)).unwrap();
    assert_eq!(buf, [1, 2, 3, 4]);
}

#[test]
fn visits_stop_at_an_error() {
    let mut host = HostMemory::new();
    let ranges = [(GuestAddress(0), 1), (GuestAddress(2), 2), (GuestAddress(4), 3)];
    let gm = GuestMemoryMmap::new(&ranges, &mut host, map).unwrap();
    let stop = gm.with_regions(|i, r| if r.len() == 2 { Err(i) } else { Ok(()) });
    assert_eq!(stop, Err(1));
    let mut seen = Vec::new();
    let stop = gm.with_regions_mut(|i, r| {
        seen.push((i, r.len()));
        if i == 1 { Err("enough") } else { Ok(()) }
    });
    assert_eq!(stop, Err("enough"));
    assert_eq!(seen, vec![(0, 1), (1, 2)]);
}

#[test]
fn regions_are_folded_in_order() {
    let mut host = HostMemory::new();
    let ranges = [(GuestAddress(0), 1), (GuestAddress(2), 2), (GuestAddress(4), 3)];
    let gm = GuestMemoryMmap::new(&ranges, &mut host, map).unwrap();
    let digits = gm.map_and_fold(7, |(i, r)| i as u64 + r.len(), |acc, item| acc * 10 + item);
    assert_eq!(digits, 7135);
}

#[test]
fn memory_streams() {
    let mut host = HostMemory::new();
    let gm = GuestMemoryMmap::new(
        &[(GuestAddress(0), 4), (GuestAddress(4), 4)],
        &mut host,
        map,
    )
    .unwrap();
    // The source gives at most three bytes at a time and is asked up to the end of a region.
    let mut asked = Vec::new();
    let mut next = 0;
    let read = gm.read_from(
        &mut host,
        GuestAddress(0),
        |n| {
            asked.push(n);
            let bytes: Vec<u8> = (0..n.min(3)).map(|i| next + i as u8).collect();
            next += bytes.len() as u8;
            Ok(bytes)
        },
        9,
    );
    assert_eq!(read.unwrap(), 8);
    assert_eq!(asked, vec![4, 1, 4, 1]);
    let mut offered = Vec::new();
    let written = gm.write_to(
        &host,
        GuestAddress(2),
        |out| {
            offered.push(out.to_vec());
            Ok(out.len().min(3))
        },
        5,
    );
    assert_eq!(written.unwrap(), 5);
    assert_eq!(offered, vec![vec![2, 3], vec![4, 5, 6]]);
}

#[test]
fn memory_streams_end_early() {
    let mut host = HostMemory::new();
    let gm = GuestMemoryMmap::new(&[(GuestAddress(0), 8)], &mut host, map).unwrap();
    let at = GuestAddress(1);
    let mut pieces = vec![vec![], vec![3], vec![1, 2]];
    assert!(matches!(
        gm.read_exact_from(&mut host, at, |_| Ok(pieces.pop().unwrap()), 6),
        Err(Error::PartialBuffer { expected: 6, completed: 3 })
    ));
    let mut buf = [9u8; 8];
    gm.read_slice(&host, &mut buf, GuestAddress(0)).unwrap();
    assert_eq!(buf, [0, 1, 2, 3, 0, 0, 0, 0]);
    assert!(matches!(
        gm.read_from(&mut host, at, |_| Ok(vec![]), 6),
        Err(Error::InvalidGuestAddress(GuestAddress(1)))
    ));
    assert!(matches!(
        gm.read_from(&mut host, GuestAddress(8), |_| unreachable!(), 6),
        Err(Error::InvalidGuestAddress(GuestAddress(8)))
    ));
    let eio = || IoError::from_raw_os_error(libc::EIO);
    match gm.read_from(&mut host, at, |_| Err(eio()), 6) {
        Err(Error::IOError(e)) => assert_eq!(e.raw_os_error(), Some(libc::EIO)),
        other => panic!("{:?}", other),
    }
    let mut takes = vec![0, 2];
    assert!(matches!(
        gm.write_all_to(&host, at, |_| Ok(takes.pop().unwrap()), 6),
        Err(Error::PartialBuffer { expected: 6, completed: 2 })
    ));
    match gm.write_to(&host, at, |_| Err(eio()), 6) {
        Err(Error::IOError(e)) => assert_eq!(e.raw_os_error(), Some(libc::EIO)),
        other => panic!("{:?}", other),
    }
}

#[test]
fn guest_addresses() {
    assert_eq!(GuestAddress(1).checked_add(2), Some(GuestAddress(3)));
    assert_eq!(GuestAddress(u64::MAX).checked_add(1), None);
    assert_eq!(GuestAddress(1).unchecked_add(2), GuestAddress(3));
    assert_eq!(GuestAddress(5).checked_offset_from(GuestAddress(2)), Some(3));
    assert_eq!(GuestAddress(2).checked_offset_from(GuestAddress(5)), None);
    assert_eq!(GuestAddress(5).raw_value(), 5);
    assert_eq!(MemoryRegionAddress(6).raw_value(), 6);
}

#[test]
fn last_range_may_run_past_the_last_address() {
    let mut host = HostMemory::new();
    let ranges = [(GuestAddress(0), 4), (GuestAddress(u64::MAX), 2)];
    let gm = GuestMemoryMmap::new(&ranges, &mut host, map).unwrap();
    assert_eq!(gm.num_regions(), 2);
    // The regions below it can be used.
    assert_eq!(gm.find_region(GuestAddress(3)).unwrap().max_addr(), GuestAddress(4));
    assert!(gm.find_region(GuestAddress(4)).is_none());
    assert_eq!(gm.write(&mut host, &sample(9), GuestAddress(2)).unwrap(), 2);
}

#[test]
fn lent_memory_holds_what_was_written() {
    // Two regions of the same size, whose memory has the same bytes at first.
    let mut first = [0u8; 4];
    let mut second = [0u8; 4];
    let places = [first.as_ptr() as usize, second.as_ptr() as usize];
    {
        let to_lend = RefCell::new(vec![&mut second[..], &mut first[..]]);
        let mut host = HostMemory::new();
        let gm = GuestMemoryMmap::new(
            &[(GuestAddress(0), 4), (GuestAddress(4), 4)],
            &mut host,
            |request, there| {
                let bytes = to_lend.borrow_mut().pop().unwrap();
                assert_eq!(bytes.len(), request.len);
                assert_eq!(there.areas.len(), 1 - to_lend.borrow().len());
                Ok(HostArea::new(bytes.as_ptr() as usize, bytes))
            },
        )
        .unwrap();
        gm.write_slice(&mut host, &sample(5), GuestAddress(2)).unwrap();
        let region = gm.find_region(GuestAddress(4)).unwrap();
        region.write(&mut host, &[9], MemoryRegionAddress(3)).unwrap();
        region.as_mut_slice(&mut host).unwrap()[2] = 8;
        gm.read_from(&mut host, GuestAddress(0), |_| Ok(vec![7]), 1).unwrap();
        assert_eq!(gm.get_host_address(GuestAddress(1)), Some(places[0] + 1));
        assert_eq!(gm.get_host_address(GuestAddress(4)), Some(places[1]));
        assert_eq!(region.as_ptr(), region.as_slice(&host).unwrap().as_ptr() as usize);
    }
    assert_eq!(first, [7, 0, 1, 2]);
    assert_eq!(second, [3, 4, 8, 9]);
}

#[test]
fn new_memory_sees_what_was_stored_before() {
    let mut lent = [0u8; 4];
    for round in 1..4u8 {
        let mut host = HostMemory::new();
        let m = MmapRegion::new(4, &mut host, |_, _| {
            Ok(HostArea::new(lent.as_ptr() as usize, &mut lent))
        })
        .unwrap();
        let s = m.as_volatile_slice();
        let mut buf = [0u8; 4];
        s.read_slice(&host, &mut buf, 0).unwrap();
        assert_eq!(buf, [round - 1; 4]);
        s.write_slice(&mut host, &[round; 4], 0).unwrap();
    }
    assert_eq!(lent, [3; 4]);
}

#[test]
fn mappings_are_apart() {
    let mut host = HostMemory::new();
    let m1 = MmapRegion::new(8, &mut host, map).unwrap();
    m1.as_volatile_slice().write(&mut host, &sample(8), 0).unwrap();
    let m2 = MmapRegion::new(8, &mut host, map).unwrap();
    assert!(m1.as_ptr() + m1.len() <= m2.as_ptr() || m2.as_ptr() + m2.len() <= m1.as_ptr());
    assert_eq!(m1.as_slice(&host), &sample(8)[..]);
    assert_eq!(m2.as_slice(&host), &[0; 8]);
    assert_eq!(m1.as_ptr(), m1.get_slice(0, 0).unwrap().as_ptr());
}

#[test]
fn empty_range_is_refused() {
    let mut host = HostMemory::new();
    let ranges = [(GuestAddress(0), 4), (GuestAddress(4), 0)];
    match GuestMemoryMmap::new(&ranges, &mut host, map) {
        Err(MmapError::SystemCallFailed(e)) => assert_eq!(e.raw_os_error(), Some(libc::EINVAL)),
        other => panic!("{:?}", other),
    }
}

#[test]
fn host_addresses_differ() {
    let mut host = HostMemory::new();
    let gm = GuestMemoryMmap::new(
        &[(GuestAddress(0), 4), (GuestAddress(4), 4)],
        &mut host,
        map,
    )
    .unwrap();
    let mut hosts: Vec<usize> =
        (0..8).map(|a| gm.get_host_address(GuestAddress(a)).unwrap()).collect();
    assert_eq!(hosts[3] - hosts[1], 2);
    hosts.sort();
    hosts.dedup();
    assert_eq!(hosts.len(), 8);
}

#[test]
fn bounds_can_be_tested() {
    let mut host = HostMemory::new();
    let ranges = [(GuestAddress(0), 4), (GuestAddress(u64::MAX - 1), 2)];
    let gm = GuestMemoryMmap::new(&ranges, &mut host, map).unwrap();
    assert!(gm.is_bounded_up_to(GuestAddress(u64::MAX - 2)));
    assert!(!gm.is_bounded_up_to(GuestAddress(u64::MAX - 1)));
    assert!(gm.is_access_bounded(GuestAddress(2), 100));
    assert!(gm.is_access_bounded(GuestAddress(u64::MAX - 2), 100));
    assert!(!gm.is_access_bounded(GuestAddress(u64::MAX - 1), 1));
    assert!(gm.is_access_bounded(GuestAddress(u64::MAX), 0));
    // An access that ends right before the region does not come to it.
    let ranges = [(GuestAddress(u64::MAX - 4), 3), (GuestAddress(u64::MAX - 1), 2)];
    let gm = GuestMemoryMmap::new(&ranges, &mut host, map).unwrap();
    assert!(gm.is_access_bounded(GuestAddress(u64::MAX - 4), 3));
    assert!(!gm.is_access_bounded(GuestAddress(u64::MAX - 4), 4));
    assert_eq!(gm.write(&mut host, &sample(3), GuestAddress(u64::MAX - 4)).unwrap(), 3);
}

#[test]
fn fold_counts_the_regions() {
    let mut host = HostMemory::new();
    let ranges = [(GuestAddress(0), 1), (GuestAddress(2), 2), (GuestAddress(4), 3)];
    let gm = GuestMemoryMmap::new(&ranges, &mut host, map).unwrap();
    assert_eq!(gm.map_and_fold(0usize, |_| 1, |acc, item| acc + item), gm.num_regions());
    let calls = RefCell::new(0);
    let result: Result<(), Error> = gm.with_regions(|_, _| {
        *calls.borrow_mut() += 1;
        Ok(())
    });
    assert!(result.is_ok());
    assert_eq!(calls.into_inner(), gm.num_regions());
}
