use zkprover_gpu::cache::BufferCache;
use zkprover_gpu::cache::ReleaseAction;
use zkprover_gpu::cache::HUGE_BUFFER_SIZE;
use zkprover_gpu::prepare_advice_buffer;
use zkprover_gpu::device::CudaDevice;
use zkprover_gpu::field::Scalar;
use zkprover_gpu::Error;

#[test]
fn cache_hands_back_released_buffers() {
    let mut cache = BufferCache::new();
    assert_eq!(cache.take(0, 64), None);
    assert!(matches!(cache.release(0, 64, 0x1000), Ok(ReleaseAction::Cached)));
    assert!(matches!(cache.release(0, 64, 0x2000), Ok(ReleaseAction::Cached)));
    assert!(matches!(cache.release(1, 64, 0x3000), Ok(ReleaseAction::Cached)));
    assert_eq!(cache.take(0, 128), None);
    assert_eq!(cache.take(0, 64), Some(0x2000));
    assert_eq!(cache.take(0, 64), Some(0x1000));
    assert_eq!(cache.take(0, 64), None);
    assert_eq!(cache.take(1, 64), Some(0x3000));
}

#[test]
fn cache_refuses_duplicate_release() {
    let mut cache = BufferCache::new();
    assert!(matches!(cache.release(0, 64, 0x1000), Ok(ReleaseAction::Cached)));
    match cache.release(0, 64, 0x1000) {
        Err(Error::DuplicateCachedBuffer { device, size, addr }) => {
            assert_eq!((device, size, addr), (0, 64, 0x1000));
        }
        _ => panic!("a duplicate release is refused"),
    }
    assert_eq!(cache.take(0, 64), Some(0x1000));
    assert_eq!(cache.take(0, 64), None);
}

#[test]
fn cache_leaves_huge_buffers_to_the_device() {
    let mut cache = BufferCache::new();
    assert!(matches!(
        cache.release(0, HUGE_BUFFER_SIZE, 0x1000),
        Ok(ReleaseAction::FreeOnDevice)
    ));
    assert!(matches!(
        cache.release(0, HUGE_BUFFER_SIZE - 1, 0x1000),
        Ok(ReleaseAction::Cached)
    ));
    assert_eq!(cache.take(0, HUGE_BUFFER_SIZE), None);
}

#[test]
fn cache_never_hands_out_a_held_buffer() {
    let mut cache = BufferCache::new();
    let mut live: Vec<usize> = vec![];
    for addr in [0x10usize, 0x20, 0x30] {
        live.push(addr);
    }
    for step in 0..20usize {
        if step % 3 == 2 {
            let addr = live.remove(0);
            assert!(matches!(cache.release(0, 256, addr), Ok(ReleaseAction::Cached)));
        } else if let Some(addr) = cache.take(0, 256) {
            assert!(!live.contains(&addr));
            live.push(addr);
        }
    }
    // every release is followed by a take that hands the buffer out again
    assert_eq!(live.len(), 3);
}

#[test]
fn device_index_must_exist() {
    let d = CudaDevice::get_device(1, 2).unwrap();
    assert_eq!(d.id(), 1);
    match CudaDevice::get_device(12, 2) {
        Err(Error::DeviceError(m)) => assert_eq!(m, "Cuda Error(): Invalid device idx 12"),
        _ => panic!("index out of range"),
    }
    match CudaDevice::get_device(2, 2) {
        Err(Error::DeviceError(m)) => assert_eq!(m, "Cuda Error(): Invalid device idx 2"),
        _ => panic!("index out of range"),
    }
}

#[test]
fn advice_buffers_are_zero_columns() {
    let bufs = prepare_advice_buffer(3, 2);
    assert_eq!(bufs.len(), 2);
    assert_eq!(bufs[0].len(), 8);
    assert!(bufs[1].iter().all(|v| *v == Scalar::zero()));
}
