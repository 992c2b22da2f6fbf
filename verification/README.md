# another_ext4

File operations and crash-consistent metadata transactions of an ext4 file system, with
their contracts proved in Verus.

Nothing is assumed of a block device: every call may fail, and what a read returns is not
tied to what was written. `Io` (`src/device.rs`) records each call with its reply, and the
contracts say which calls an operation makes, in which order, what it does with each reply and
what it returns. What then holds of a device that does answer with what it holds, and of layers
that answer by what the names of directories stand for, is proved from those contracts.

## Layout

| modules | |
| --- | --- |
| `device`, `trace`, `volume`, `error` | block devices, the record of calls, and the layers that keep extent trees, directories and the inode bitmap |
| `bytes`, `crc32c`, `jbd2`, `inode`, `superblock`, `extent`, `xattr` | on-disk formats |
| `staged`, `context`, `journal_transaction`, `journal_log`, `commit_plan`, `commit`, `direct_range` | transactions: staging, the log, and commits with and without a journal |
| `durability`, `readback`, `token` | what a commit leaves on the device, what replaying its log gives back, and who may write |
| `fs`, `gate`, `guard` | the mounted file system, and the barrier between direct and transactional writers |
| `balloc`, `prepared_extent`, `range`, `grow`, `append_range`, `prepare`, `prepare_journal`, `stats`, `mapped` | allocating blocks ahead of writes, and what is counted of it |
| `data`, `data_read`, `file_write`, `content` | file data, and the bytes that a file holds |
| `attr`, `truncate`, `namespace`, `unlink`, `rename`, `file_xattr` | the remaining operations |
| `shrink`, `naming`, `name_moves`, `link_count`, `tree`, `dir_links`, `move_links`, `replace_links`, `xattr_readback` | what one of them leaves for the next: the bytes of a file that was cut, the names, their number in files and directories, and attributes |

`app/` shares a mounted file system between owners, ends transactions with their scope, and logs
what fails. `tests/` runs the library on devices in memory.
