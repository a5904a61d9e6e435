use lib::cli::{parse, Command, Reply, Shell, UsageOf};
use lib::memory::AllocationStrategy;

#[test]
fn parse_commands() {
    assert_eq!(parse("init 1024"), Command::Init(Some(1024)));
    assert_eq!(parse("  malloc   +12  "), Command::Malloc(Some(12)));
    assert_eq!(parse("malloc -1"), Command::Malloc(None));
    assert_eq!(parse("malloc 12a"), Command::Malloc(None));
    assert_eq!(parse("malloc +"), Command::Malloc(None));
    assert_eq!(parse("malloc"), Command::Usage(UsageOf::Malloc));
    assert_eq!(parse("malloc 1 2"), Command::Usage(UsageOf::Malloc));
    assert_eq!(parse("free 4294967295"), Command::Free(Some(u32::MAX)));
    assert_eq!(parse("free 4294967296"), Command::Free(None));
    assert_eq!(parse("free"), Command::Usage(UsageOf::Free));
    assert_eq!(parse("init"), Command::Usage(UsageOf::Init));
    assert_eq!(parse("set_allocator"), Command::Usage(UsageOf::SetAllocator));
    assert_eq!(
        parse("set_allocator best_fit"),
        Command::SetAllocator(Some(AllocationStrategy::BestFit))
    );
    assert_eq!(
        parse("set_allocator first_fit"),
        Command::SetAllocator(Some(AllocationStrategy::FirstFit))
    );
    assert_eq!(
        parse("set_allocator worst_fit"),
        Command::SetAllocator(Some(AllocationStrategy::WorstFit))
    );
    assert_eq!(
        parse("set_allocator first"),
        Command::SetAllocator(Some(AllocationStrategy::FirstFit))
    );
    assert_eq!(
        parse("set_allocator best"),
        Command::SetAllocator(Some(AllocationStrategy::BestFit))
    );
    assert_eq!(
        parse("set_allocator worst"),
        Command::SetAllocator(Some(AllocationStrategy::WorstFit))
    );
    assert_eq!(parse("set_allocator fastest"), Command::SetAllocator(None));
    assert_eq!(parse(""), Command::Empty);
    assert_eq!(parse(" \t "), Command::Empty);
    assert_eq!(parse("dump"), Command::Dump);
    assert_eq!(parse("dump now"), Command::Dump);
    assert_eq!(parse("stats"), Command::Stats);
    assert_eq!(parse("vm_init"), Command::VmInit);
    assert_eq!(parse("vm_access 0x1000"), Command::VmAccess(Some(0x1000)));
    assert_eq!(parse("vm_access 0XfFf"), Command::VmAccess(Some(0xfff)));
    assert_eq!(parse("vm_access 4096"), Command::VmAccess(Some(4096)));
    assert_eq!(parse("vm_access 0x100000000"), Command::VmAccess(None));
    assert_eq!(parse("vm_access 0x"), Command::VmAccess(None));
    assert_eq!(parse("vm_access 0xg"), Command::VmAccess(None));
    assert_eq!(parse("vm_access"), Command::Usage(UsageOf::VmAccess));
    assert_eq!(parse("vm_stats"), Command::VmStats);
    assert_eq!(parse("cache_init 32768 262144"), Command::CacheInit(Some(32768), Some(262144)));
    assert_eq!(parse("cache_init 32768 x"), Command::CacheInit(Some(32768), None));
    assert_eq!(parse("cache_init 32768"), Command::Usage(UsageOf::CacheInit));
    assert_eq!(parse("cache_access 0x1004"), Command::CacheAccess(Some(0x1004)));
    assert_eq!(parse("cache_access"), Command::Usage(UsageOf::CacheAccess));
    assert_eq!(parse("cache_stats"), Command::CacheStats);
    assert_eq!(parse("exit"), Command::Unknown);
    assert_eq!(parse("INIT 5"), Command::Unknown);
    assert_eq!(parse("init\u{3000}5"), Command::Init(Some(5)));
    assert_eq!(parse("init 007"), Command::Init(Some(7)));
}

#[test]
fn parse_matches_split_whitespace_and_std_parse() {
    let lines = ["init 99", " malloc\t+0 ", "free 12 13", "init 18446744073709551616", "x y", "\u{a0}dump"];
    for line in lines {
        let parts: Vec<&str> = line.split_whitespace().collect();
        let c = parse(line);
        if parts.is_empty() {
            assert_eq!(c, Command::Empty);
        } else if parts[0] == "init" && parts.len() == 2 {
            assert_eq!(c, Command::Init(parts[1].parse::<usize>().ok()));
        } else if parts[0] == "malloc" && parts.len() == 2 {
            assert_eq!(c, Command::Malloc(parts[1].parse::<usize>().ok()));
        } else if parts[0] == "free" && parts.len() == 2 {
            assert_eq!(c, Command::Free(parts[1].parse::<u32>().ok()));
        } else if parts[0] == "free" {
            assert_eq!(c, Command::Usage(UsageOf::Free));
        } else if parts[0] == "dump" {
            assert_eq!(c, Command::Dump);
        } else {
            assert_eq!(c, Command::Unknown);
        }
    }
}

#[test]
fn commands_before_init() {
    let mut s = Shell::new();
    assert!(matches!(s.execute(Command::Dump), Reply::NotInitialized));
    assert!(matches!(s.execute(Command::Malloc(Some(4))), Reply::NotInitialized));
    assert!(matches!(s.execute(Command::SetAllocator(None)), Reply::NotInitialized));
    assert!(matches!(s.execute(Command::Usage(UsageOf::Malloc)), Reply::NotInitialized));
    assert!(matches!(s.execute(Command::Free(Some(1))), Reply::Silent));
    assert!(matches!(s.execute(Command::Usage(UsageOf::Free)), Reply::Silent));
    assert!(matches!(s.execute(Command::Usage(UsageOf::Init)), Reply::Usage(UsageOf::Init)));
    assert!(matches!(s.execute(Command::Init(None)), Reply::Silent));
    assert!(matches!(s.execute(Command::Empty), Reply::Silent));
    assert!(matches!(s.execute(Command::Unknown), Reply::UnknownCommand));
}

#[test]
fn example_session() {
    let mut s = Shell::new();
    let mut run = |line: &str| {
        let c = parse(line);
        assert!(s.can_execute(&c));
        s.execute(c)
    };
    assert!(matches!(run("init 1024"), Reply::Initialized(1024)));
    assert!(matches!(run("set_allocator first_fit"), Reply::StrategyUpdated));
    assert!(matches!(run("set_allocator first"), Reply::StrategyUpdated));
    assert!(matches!(run("set_allocator fastest"), Reply::InvalidStrategy));
    assert!(matches!(run("malloc 200"), Reply::Allocated(1, 0)));
    assert!(matches!(run("malloc 50"), Reply::Allocated(2, 200)));
    assert!(matches!(run("malloc 5000"), Reply::AllocationFailed));
    assert!(matches!(run("free 1"), Reply::Freed(1)));
    assert!(matches!(run("free 1"), Reply::InvalidBlockId));
    assert!(matches!(run("free x"), Reply::Silent));
    assert!(matches!(run("malloc"), Reply::Usage(UsageOf::Malloc)));
    assert!(matches!(run("free"), Reply::Usage(UsageOf::Free)));
    assert!(matches!(run("set_allocator"), Reply::Usage(UsageOf::SetAllocator)));
    match run("dump") {
        Reply::Layout(blocks) => {
            let v: Vec<(usize, usize, bool)> = blocks.iter().map(|b| (b.start, b.size, b.free)).collect();
            assert_eq!(v, vec![(0, 200, true), (200, 50, false), (250, 774, true)]);
        }
        _ => panic!("dump should answer with the layout"),
    }
    assert!(matches!(run("init 10"), Reply::Initialized(10)));
    assert!(matches!(run("malloc 10"), Reply::Allocated(1, 0)));
}

#[test]
fn readme_memory_session() {
    let mut s = Shell::new();
    let mut run = |line: &str| {
        let c = parse(line);
        assert!(s.can_execute(&c));
        s.execute(c)
    };
    assert!(matches!(run("stats"), Reply::NotInitialized));
    assert!(matches!(run("init 1024"), Reply::Initialized(1024)));
    assert!(matches!(run("set_allocator best"), Reply::StrategyUpdated));
    assert!(matches!(run("malloc 200"), Reply::Allocated(1, 0)));
    assert!(matches!(run("malloc 50"), Reply::Allocated(2, 200)));
    assert!(matches!(run("free 1"), Reply::Freed(1)));
    match run("stats") {
        Reply::Stats(st) => {
            assert_eq!(st.total, 1024);
            assert_eq!(st.used, 50);
            assert_eq!(st.free, 974);
            assert_eq!(st.largest_free, 774);
            assert_eq!((st.alloc_attempts, st.alloc_success), (2, 2));
        }
        _ => panic!("stats should answer with the figures"),
    }
}

#[test]
fn readme_vm_and_cache_session() {
    let mut s = Shell::new();
    let mut run = |line: &str| {
        let c = parse(line);
        assert!(s.can_execute(&c));
        s.execute(c)
    };
    assert!(matches!(run("vm_stats"), Reply::VmNotInitialized));
    assert!(matches!(run("cache_stats"), Reply::CacheNotInitialized));
    assert!(matches!(run("cache_init 32768 262144"), Reply::CacheInitialized(32768, 262144)));
    assert!(matches!(run("vm_init"), Reply::VmInitialized));
    assert!(matches!(run("vm_access 0x1000"), Reply::Translated(0, true, Some(false))));
    assert!(matches!(run("vm_access 0x1000"), Reply::Translated(0, false, Some(true))));
    assert!(matches!(run("vm_stats"), Reply::VmStats(1, 0)));
    match run("cache_stats") {
        Reply::CacheStats(k) => {
            assert_eq!((k.l1_accesses, k.l1_hits), (2, 1));
            assert_eq!((k.l2_accesses, k.l2_hits), (1, 0));
        }
        _ => panic!("cache_stats should answer with the counts"),
    }
}

#[test]
fn vm_workload_through_the_shell() {
    let mut s = Shell::new();
    let mut run = |line: &str| {
        let c = parse(line);
        assert!(s.can_execute(&c));
        s.execute(c)
    };
    assert!(matches!(run("vm_access 0x1000"), Reply::VmNotInitialized));
    assert!(matches!(run("vm_init"), Reply::VmInitialized));
    assert!(matches!(run("vm_access 0x1000"), Reply::Translated(0, true, None)));
    assert!(matches!(run("vm_access 0x2000"), Reply::Translated(4096, true, None)));
    assert!(matches!(run("vm_access 0x1000"), Reply::Translated(0, false, None)));
    assert!(matches!(run("vm_access 0xF000"), Reply::Translated(8192, true, None)));
    assert!(matches!(run("vm_access 0x1234"), Reply::Translated(0x234, false, None)));
    assert!(matches!(run("vm_stats"), Reply::VmStats(3, 0)));
    assert!(matches!(run("vm_access"), Reply::Usage(UsageOf::VmAccess)));
    assert!(matches!(run("vm_access nowhere"), Reply::Silent));
}

#[test]
fn cache_commands() {
    let mut s = Shell::new();
    let mut run = |line: &str| {
        let c = parse(line);
        assert!(s.can_execute(&c));
        s.execute(c)
    };
    assert!(matches!(run("cache_access 0x1000"), Reply::CacheNotInitialized));
    assert!(matches!(run("cache_init 100 262144"), Reply::InvalidCacheSize));
    assert!(matches!(run("cache_init 1k 262144"), Reply::Silent));
    assert!(matches!(run("cache_init 32768 262144"), Reply::CacheInitialized(32768, 262144)));
    assert!(matches!(run("cache_access 0x1000"), Reply::CacheAccessed(false)));
    assert!(matches!(run("cache_access 0x1004"), Reply::CacheAccessed(true)));
    assert!(matches!(run("cache_access 0x2000"), Reply::CacheAccessed(false)));
    assert!(matches!(run("cache_access 0x1008"), Reply::CacheAccessed(true)));
    assert!(matches!(run("cache_access"), Reply::Usage(UsageOf::CacheAccess)));
    assert!(matches!(run("cache_init"), Reply::Usage(UsageOf::CacheInit)));
    match run("cache_stats") {
        Reply::CacheStats(k) => assert_eq!((k.l1_accesses, k.l1_hits), (4, 2)),
        _ => panic!("cache_stats should answer with the counts"),
    }
}
