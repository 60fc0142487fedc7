use memtrack::cpus::{online_cpus, parse_cpu_list, CpuListError};

#[test]
fn parses_cpu_ranges() {
    assert_eq!(parse_cpu_list("0-2,5,8-9").unwrap(), vec![0, 1, 2, 5, 8, 9]);
}

#[test]
fn reads_the_kernel_file_format() {
    assert_eq!(online_cpus("0-3\n").unwrap(), vec![0, 1, 2, 3]);
    assert_eq!(online_cpus(" 7 , 2-2 \n").unwrap(), vec![7, 2]);
    assert_eq!(
        parse_cpu_list("4294967295").unwrap(),
        vec![4_294_967_295]
    );
}

#[test]
fn rejects_malformed_cpu_lists() {
    assert_eq!(parse_cpu_list(""), Err(CpuListError::EmptyRange));
    assert_eq!(parse_cpu_list("0,,2"), Err(CpuListError::EmptyRange));
    assert_eq!(parse_cpu_list("0, "), Err(CpuListError::EmptyRange));
    assert_eq!(parse_cpu_list("a"), Err(CpuListError::InvalidNumber));
    assert_eq!(parse_cpu_list("0-"), Err(CpuListError::InvalidNumber));
    assert_eq!(parse_cpu_list("0-1-2"), Err(CpuListError::InvalidNumber));
    assert_eq!(
        parse_cpu_list("4294967296"),
        Err(CpuListError::InvalidNumber)
    );
    assert_eq!(
        parse_cpu_list("1, 5-3 ,a"),
        Err(CpuListError::InvalidRange("5-3".to_string()))
    );
}
