use std::io::{Error as IoError, Read, Seek, SeekFrom, Write};
use std::mem;
use tempfile::tempfile;
use vm_memory::{
    Error, GuestAddress, GuestMemoryMmap, GuestUsize, HostArea, HostMemory, MapRequest, MmapError,
    MmapRegion,
};

/// Stands in for the kernel: lends zeroed memory from the heap. The two refusals are written down
/// here, so a test that meets one shows that the library asks with these values and hands the error
/// on, not what a kernel answers.
fn map(request: MapRequest, _there: &HostMemory<'static>) -> Result<HostArea<'static>, IoError> {
    if !request.anonymous && request.fd < 0 {
        return Err(IoError::from_raw_os_error(libc::EBADF));
    }
    if request.len == 0 {
        return Err(IoError::from_raw_os_error(libc::EINVAL));
    }
    let bytes: &'static mut [u8] = Box::leak(vec![0u8; request.len].into_boxed_slice());
    let addr = bytes.as_ptr() as usize;
    Ok(HostArea::new(addr, bytes))
}

#[test]
fn basic_map() {
    let mut host = HostMemory::new();
    let m = MmapRegion::new(1024, &mut host, map).unwrap();
    assert_eq!(1024, m.len());
}

#[test]
fn map_invalid_size() {
    let mut host = HostMemory::new();
    let e = MmapRegion::new(0, &mut host, map).unwrap_err();
    assert_eq!(e.raw_os_error(), Some(libc::EINVAL));
}

#[test]
fn map_invalid_fd() {
    let mut host = HostMemory::new();
    let e = MmapRegion::from_fd(-1, 1024, 0, &mut host, map).unwrap_err();
    assert_eq!(e.raw_os_error(), Some(libc::EBADF));
}

#[test]
fn slice_addr() {
    let mut host = HostMemory::new();
    let m = MmapRegion::new(5, &mut host, map).unwrap();
    let s = m.get_slice(2, 3).unwrap();
    assert_eq!(s.as_ptr(), m.as_ptr() + 2);
}

#[test]
fn mapped_file_read() {
    let mut f = tempfile().unwrap();
    let sample_buf = &[1, 2, 3, 4, 5];
    assert!(f.write_all(sample_buf).is_ok());

    let mut host = HostMemory::new();
    // The file is read into the heap instead of being mapped; the descriptor is a stand-in.
    let mem_map = MmapRegion::from_fd(3, sample_buf.len(), 0, &mut host, |request, _| {
        let mut bytes = vec![0u8; request.len];
        f.seek(SeekFrom::Start(request.offset as u64))?;
        f.read_exact(&mut bytes)?;
        let bytes: &'static mut [u8] = Box::leak(bytes.into_boxed_slice());
        Ok(HostArea::new(bytes.as_ptr() as usize, bytes))
    })
    .unwrap();
    let buf = &mut [0u8; 16];
    assert_eq!(
        mem_map.as_volatile_slice().read(&host, buf, 0).unwrap(),
        sample_buf.len()
    );
    assert_eq!(buf[0..sample_buf.len()], sample_buf[..]);
}

#[test]
fn test_regions() {
    // No regions provided should return error.
    let mut host = HostMemory::new();
    assert_eq!(
        format!("{:?}", GuestMemoryMmap::new(&[], &mut host, map).err().unwrap()),
        format!("{:?}", MmapError::NoMemoryRegion)
    );

    let start_addr1 = GuestAddress(0x0);
    let start_addr2 = GuestAddress(0x800);
    let guest_mem = GuestMemoryMmap::new(
        &[(start_addr1, 0x400), (start_addr2, 0x400)],
        &mut host,
        map,
    )
    .unwrap();
    assert_eq!(guest_mem.num_regions(), 2);
    assert!(guest_mem.find_region(GuestAddress(0x200)).is_some());
    assert!(guest_mem.find_region(GuestAddress(0x600)).is_none());
    assert!(guest_mem.find_region(GuestAddress(0xa00)).is_some());
    assert!(guest_mem.find_region(GuestAddress(0xc00)).is_none());
}

#[test]
fn overlap_memory() {
    let mut host = HostMemory::new();
    let start_addr1 = GuestAddress(0x0);
    let start_addr2 = GuestAddress(0x1000);
    let res = GuestMemoryMmap::new(
        &[(start_addr1, 0x2000), (start_addr2, 0x2000)],
        &mut host,
        map,
    );
    assert_eq!(
        format!("{:?}", res.err().unwrap()),
        format!("{:?}", MmapError::MemoryRegionOverlap)
    );
}

#[test]
fn test_read_u64() {
    let mut host = HostMemory::new();
    let start_addr1 = GuestAddress(0x0);
    let start_addr2 = GuestAddress(0x1000);
    let bad_addr = GuestAddress(0x2001);
    let bad_addr2 = GuestAddress(0x1ffc);
    let max_addr = GuestAddress(0x2000);

    let gm = GuestMemoryMmap::new(
        &[(start_addr1, 0x1000), (start_addr2, 0x1000)],
        &mut host,
        map,
    )
    .unwrap();

    let val1: u64 = 0xaa55_aa55_aa55_aa55;
    let val2: u64 = 0x55aa_55aa_55aa_55aa;
    assert_eq!(
        format!(
            "{:?}",
            gm.write_slice(&mut host, &val1.to_ne_bytes(), bad_addr).err().unwrap()
        ),
        format!("InvalidGuestAddress({:?})", bad_addr,)
    );
    assert_eq!(
        format!(
            "{:?}",
            gm.write_slice(&mut host, &val1.to_ne_bytes(), bad_addr2).err().unwrap()
        ),
        format!(
            "PartialBuffer {{ expected: {:?}, completed: {:?} }}",
            mem::size_of::<u64>(),
            max_addr.checked_offset_from(bad_addr2).unwrap()
        )
    );

    gm.write_slice(&mut host, &val1.to_ne_bytes(), GuestAddress(0x500)).unwrap();
    gm.write_slice(&mut host, &val2.to_ne_bytes(), GuestAddress(0x1000 + 32)).unwrap();
    let mut num1 = [0u8; 8];
    let mut num2 = [0u8; 8];
    gm.read_slice(&host, &mut num1, GuestAddress(0x500)).unwrap();
    gm.read_slice(&host, &mut num2, GuestAddress(0x1000 + 32)).unwrap();
    assert_eq!(val1, u64::from_ne_bytes(num1));
    assert_eq!(val2, u64::from_ne_bytes(num2));
}

#[test]
fn write_and_read() {
    let mut host = HostMemory::new();
    let mut start_addr = GuestAddress(0x1000);
    let gm = GuestMemoryMmap::new(&[(start_addr, 0x400)], &mut host, map).unwrap();
    let sample_buf = &[1, 2, 3, 4, 5];

    assert_eq!(gm.write(&mut host, sample_buf, start_addr).unwrap(), 5);

    let buf = &mut [0u8; 5];
    assert_eq!(gm.read(&host, buf, start_addr).unwrap(), 5);
    assert_eq!(buf, sample_buf);

    start_addr = GuestAddress(0x13ff);
    assert_eq!(gm.write(&mut host, sample_buf, start_addr).unwrap(), 1);
    assert_eq!(gm.read(&host, buf, start_addr).unwrap(), 1);
    assert_eq!(buf[0], sample_buf[0]);
}

#[test]
fn read_to_and_write_from_mem() {
    let mut host = HostMemory::new();
    let gm = GuestMemoryMmap::new(&[(GuestAddress(0x1000), 0x400)], &mut host, map).unwrap();
    let addr = GuestAddress(0x1010);
    gm.write_slice(&mut host, &(!0u32).to_ne_bytes(), addr).unwrap();
    let mut zeroes = std::io::repeat(0);
    gm.read_exact_from(
        &mut host,
        addr,
        |count| {
            let mut bytes = vec![1u8; count];
            let n = zeroes.read(&mut bytes)?;
            bytes.truncate(n);
            Ok(bytes)
        },
        mem::size_of::<u32>(),
    )
    .unwrap();
    let mut value = [1u8; 4];
    gm.read_slice(&host, &mut value, addr).unwrap();
    assert_eq!(u32::from_ne_bytes(value), 0);

    let mut sink = Vec::new();
    gm.write_all_to(&host, addr, |out| sink.write(out), mem::size_of::<u32>())
        .unwrap();
    assert_eq!(sink, vec![0; mem::size_of::<u32>()]);
}

#[test]
fn create_vec_with_regions() {
    let mut host = HostMemory::new();
    let region_size = 0x400;
    let regions = vec![
        (GuestAddress(0x0), region_size),
        (GuestAddress(0x1000), region_size),
    ];
    let mut iterated_regions = Vec::new();
    let gm = GuestMemoryMmap::new(&regions, &mut host, map).unwrap();

    let res: Result<(), Error> = gm.with_regions(|_, region| {
        assert_eq!(region.len(), region_size as GuestUsize);
        Ok(())
    });
    assert!(res.is_ok());

    let res: Result<(), Error> = gm.with_regions_mut(|_, region| {
        iterated_regions.push((region.min_addr(), region.len() as usize));
        Ok(())
    });
    assert!(res.is_ok());
    assert_eq!(regions, iterated_regions);
    let bases: Result<(), Error> = gm.clone().with_regions(|index, region| {
        assert_eq!(region.min_addr(), regions[index].0);
        Ok(())
    });
    assert!(bases.is_ok());
    assert_eq!(gm.clone().num_regions(), 2);
}

#[test]
fn test_access_cross_boundary() {
    let mut host = HostMemory::new();
    let start_addr1 = GuestAddress(0x0);
    let start_addr2 = GuestAddress(0x1000);
    let gm = GuestMemoryMmap::new(
        &[(start_addr1, 0x1000), (start_addr2, 0x1000)],
        &mut host,
        map,
    )
    .unwrap();
    let sample_buf = &[1, 2, 3, 4, 5];
    assert_eq!(gm.write(&mut host, sample_buf, GuestAddress(0xffc)).unwrap(), 5);
    let buf = &mut [0u8; 5];
    assert_eq!(gm.read(&host, buf, GuestAddress(0xffc)).unwrap(), 5);
    assert_eq!(buf, sample_buf);
}
